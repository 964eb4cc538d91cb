//! The allocator context: size-class free-list table, heap bootstrap and
//! growth, and the public `malloc` / `calloc` / `realloc` / `free` surface.

use vstd::prelude::*;
use vstd::arithmetic::div_mod::lemma_fundamental_div_mod;
use vstd::arithmetic::div_mod::lemma_div_is_ordered;
use vstd::arithmetic::mul::lemma_mul_inequality;
use vstd::arithmetic::mul::lemma_mul_is_distributive_add;
use crate::os::Memory;
use crate::os::HEAP_BASE;
use crate::os::word_at;

verus! {

/// Memory alignment (in bytes).
pub const MEMORY_ALIGNMENT: usize = 8;

/// Maximum payload size served from the size-class free lists; larger
/// requests go through an anonymous mapping.
pub const MAX_HEAP_SIZE: usize = 512;

/// Byte budget carved into blocks when a size class is first stocked or
/// grown.
pub const ADD_LIST_SIZE: usize = 512;

/// Number of size-class slots (slot `c` serves payloads of exactly
/// `c * MEMORY_ALIGNMENT` bytes; slot 0 is unused).
pub const NUMBER_OF_MEM_BLOCKS: usize = MAX_HEAP_SIZE / MEMORY_ALIGNMENT + 1;

/// Bytes of metadata prefixed to every block: size, origin flag and
/// free-list link, each stored as a little-endian 64-bit word.
pub const HEADER_SIZE: usize = 24;

/// `size` rounded up to the next multiple of the alignment.
pub open spec fn align_spec(size: int) -> int {
    ((size + 7) / 8) * 8
}

/// Rounds `size` up to the next multiple of the allocator's alignment.
pub fn get_align(size: usize) -> (r: usize)
    requires
        size + 7 <= usize::MAX,
    ensures
        r == align_spec(size as int),
{
    (size + (MEMORY_ALIGNMENT - 1)) / MEMORY_ALIGNMENT * MEMORY_ALIGNMENT
}

/// Alignment is sound: the rounded size is a multiple of the alignment, at
/// least the requested size, and overshoots by less than one alignment unit.
pub proof fn lemma_align_properties(size: int)
    requires
        size >= 0,
    ensures
        align_spec(size) % 8 == 0,
        align_spec(size) >= size,
        align_spec(size) < size + 8,
{
    lemma_fundamental_div_mod(size + 7, 8);
    vstd::arithmetic::div_mod::lemma_mod_multiples_basic((size + 7) / 8, 8);
}

/// The address of the header preceding a pointer previously returned by the
/// allocator.
pub fn get_block_head(pointer: usize) -> (r: usize)
    requires
        pointer >= HEADER_SIZE,
    ensures
        r == pointer - HEADER_SIZE,
{
    pointer - HEADER_SIZE
}

/// Ghost record of one live allocation, keyed by the returned pointer.
pub struct Block {
    /// For a free-list block, the usable payload size; for an mmap block,
    /// the total mapped length, header included.  The duality mirrors what
    /// the header's `size` field stores for each origin.
    pub size: usize,
    /// True when the block is backed by an anonymous mapping.
    pub mm: bool,
    /// Index of the backing mapping (meaningful only when `mm` is true).
    pub ri: usize,
}

/// Usable payload bytes of a block, by origin.
pub open spec fn payload_len(b: Block) -> int {
    if b.mm {
        b.size - HEADER_SIZE
    } else {
        b.size as int
    }
}

/// Bytes the block occupies in the address space, header included.
pub open spec fn footprint_len(b: Block) -> int {
    if b.mm {
        b.size as int
    } else {
        b.size + HEADER_SIZE
    }
}

/// Blocks carved per batch for class `c` (a fixed byte budget divided by
/// the class's payload size).
pub open spec fn class_batch_count(c: int) -> int {
    ADD_LIST_SIZE as int / (8 * c)
}

/// Heap bytes one batch for class `c` occupies, headers included.
pub open spec fn class_batch_bytes(c: int) -> int {
    class_batch_count(c) * (8 * c + HEADER_SIZE as int)
}

/// Heap bytes the bootstrap sweep uses for classes below `c`.
pub open spec fn init_bytes_prefix(c: int) -> int
    decreases c,
{
    if c <= 1 {
        0
    } else {
        init_bytes_prefix(c - 1) + class_batch_bytes(c - 1)
    }
}

/// Heap bytes the one-time bootstrap requests: one batch for every class.
pub open spec fn init_total_bytes() -> int {
    init_bytes_prefix(NUMBER_OF_MEM_BLOCKS as int)
}

/// Per-class batch arithmetic: every class gets at least one block, and a
/// batch never exceeds 2048 bytes.
pub proof fn lemma_batch_bounds(c: int)
    requires
        1 <= c <= 64,
    ensures
        1 <= class_batch_count(c) <= 64,
        class_batch_count(c) * (8 * c) <= 512,
        0 < class_batch_bytes(c) <= 2048,
{
    let n = class_batch_count(c);
    lemma_fundamental_div_mod(512, 8 * c);
    assert(n * (8 * c) <= 512);
    assert(n >= 1) by {
        if n < 1 {
            assert(n <= 0);
            assert(n * (8 * c) <= 0) by (nonlinear_arith)
                requires
                    n <= 0,
                    8 * c > 0,
            ;
        }
    }
    assert(n <= 64) by {
        assert(512int / (8 * c) <= (8 * c) * 64 / (8 * c)) by {
            assert(512int <= (8 * c) * 64) by (nonlinear_arith)
                requires
                    c >= 1,
            ;
            lemma_div_is_ordered(512, (8 * c) * 64, 8 * c);
        }
        vstd::arithmetic::div_mod::lemma_div_by_multiple(64, 8 * c);
    }
    assert(class_batch_bytes(c) == n * (8 * c) + n * HEADER_SIZE) by {
        lemma_mul_is_distributive_add(n, 8 * c, HEADER_SIZE as int);
    }
    assert(n * HEADER_SIZE <= 64 * HEADER_SIZE) by {
        lemma_mul_inequality(n, 64, HEADER_SIZE as int);
    }
    assert(class_batch_bytes(c) > 0) by {
        assert(n * (8 * c) > 0) by (nonlinear_arith)
            requires
                n >= 1,
                c >= 1,
        ;
        assert(n * HEADER_SIZE >= 0) by (nonlinear_arith)
            requires
                n >= 1,
        ;
    }
}

/// The bootstrap prefix sums are monotone and the full sweep fits well
/// under the heap addresses' range.
pub proof fn lemma_init_prefix_bounds(c: int)
    requires
        1 <= c <= NUMBER_OF_MEM_BLOCKS,
    ensures
        0 <= init_bytes_prefix(c) <= 2048 * (c - 1),
        init_bytes_prefix(c) <= init_total_bytes(),
    decreases NUMBER_OF_MEM_BLOCKS as int - c,
{
    lemma_init_prefix_nonneg(c);
    if c == NUMBER_OF_MEM_BLOCKS {
    } else {
        lemma_batch_bounds(c);
        lemma_init_prefix_bounds(c + 1);
    }
}

proof fn lemma_init_prefix_nonneg(c: int)
    requires
        1 <= c <= NUMBER_OF_MEM_BLOCKS,
    ensures
        0 <= init_bytes_prefix(c) <= 2048 * (c - 1),
    decreases c,
{
    if c > 1 {
        lemma_init_prefix_nonneg(c - 1);
        lemma_batch_bounds(c - 1);
    }
}

/// The allocator context: the modelled address space, the size-class table
/// of free-list heads, and the ghost bookkeeping the contracts are stated
/// over.
pub struct Allocator {
    /// The linear heap and the anonymous mappings.
    pub mem: Memory,
    /// Head addresses of the per-class free lists (0 = empty); slot `c`
    /// serves payloads of exactly `8 * c` bytes.
    pub table: Vec<usize>,
    /// Set by the one-time bootstrap; once set, allocation skips it.
    pub initialized: bool,
    /// Ghost: the full contents of every free list, head first.
    pub free_lists: Ghost<Seq<Seq<usize>>>,
    /// Ghost: every live allocation, keyed by the returned pointer.
    pub alloc_map: Ghost<Map<usize, Block>>,
}

impl Allocator {
    pub open spec fn lists(self) -> Seq<Seq<usize>> {
        self.free_lists@
    }

    pub open spec fn allocs(self) -> Map<usize, Block> {
        self.alloc_map@
    }

    pub open spec fn is_initialized(self) -> bool {
        self.initialized
    }

    pub open spec fn brk(self) -> int {
        self.mem.brk()
    }

    /// Can the linear heap still grow by `n` bytes?
    pub open spec fn heap_room(self, n: int) -> bool {
        self.mem.heap@.len() + n <= self.mem.heap_cap
    }

    /// Can an `n`-byte anonymous mapping still be placed?
    pub open spec fn map_room(self, n: int) -> bool {
        self.mem.cursor + n <= self.mem.map_limit
    }

    /// The free-list block at position `k` of class `c` carries a correct
    /// header: its size field names the class, its origin flag says
    /// free-list, and its link field holds the next list entry (0 at the
    /// tail).
    pub open spec fn free_block_ok(self, c: int, k: int) -> bool {
        let l = self.lists()[c];
        let a = l[k] as int;
        &&& HEAP_BASE <= a
        &&& a + HEADER_SIZE + 8 * c <= self.mem.brk()
        &&& word_at(self.mem, a) == 8 * c
        &&& word_at(self.mem, a + 8) == 0
        &&& word_at(self.mem, a + 16) == (if k + 1 < l.len() {
            l[k + 1] as int
        } else {
            0
        })
    }

    /// The table slot for class `c` holds the list's head, and every listed
    /// block is well formed.
    pub open spec fn class_ok(self, c: int) -> bool {
        &&& self.table@[c] == (if self.lists()[c].len() == 0 {
            0usize
        } else {
            self.lists()[c][0]
        })
        &&& forall|k: int| 0 <= k < self.lists()[c].len() ==> self.free_block_ok(c, k)
    }

    /// Distinct free-list blocks occupy disjoint address ranges.
    pub open spec fn free_disjoint(self) -> bool {
        forall|c1: int, k1: int, c2: int, k2: int|
            #![trigger self.lists()[c1][k1], self.lists()[c2][k2]]
            1 <= c1 < NUMBER_OF_MEM_BLOCKS && 0 <= k1 < self.lists()[c1].len() && 1 <= c2
                < NUMBER_OF_MEM_BLOCKS && 0 <= k2 < self.lists()[c2].len() && !(c1 == c2 && k1
                == k2) ==> self.lists()[c1][k1] + HEADER_SIZE + 8 * c1 <= self.lists()[c2][k2]
                || self.lists()[c2][k2] + HEADER_SIZE + 8 * c2 <= self.lists()[c1][k1]
    }

    /// The live allocation at `p` is well formed: a free-list block lies in
    /// the heap with a header naming its exact class size; an mmap block is
    /// exactly a live mapping whose header names the total mapped length.
    pub open spec fn alloc_ok(self, p: usize) -> bool {
        let b = self.allocs()[p];
        if !b.mm {
            &&& HEAP_BASE + HEADER_SIZE <= p
            &&& p + b.size <= self.mem.brk()
            &&& b.size % 8 == 0
            &&& 8 <= b.size <= MAX_HEAP_SIZE
            &&& word_at(self.mem, p - HEADER_SIZE) == b.size
            &&& word_at(self.mem, p - 16) == 0
        } else {
            &&& b.ri < self.mem.regions@.len()
            &&& self.mem.regions@[b.ri as int].live
            &&& self.mem.regions@[b.ri as int].base + HEADER_SIZE == p
            &&& self.mem.regions@[b.ri as int].data@.len() == b.size
            &&& MAX_HEAP_SIZE + HEADER_SIZE < b.size
            &&& word_at(self.mem, p - HEADER_SIZE) == b.size
            &&& word_at(self.mem, p - 16) == 1
        }
    }

    /// Free-list blocks never overlap a live heap allocation.
    pub open spec fn alloc_free_disjoint(self) -> bool {
        forall|p: usize, c: int, k: int|
            #![trigger self.allocs()[p], self.lists()[c][k]]
            self.allocs().dom().contains(p) && !self.allocs()[p].mm && 1 <= c
                < NUMBER_OF_MEM_BLOCKS && 0 <= k < self.lists()[c].len() ==> p + self.allocs()[
                p
            ].size <= self.lists()[c][k] || self.lists()[c][k] + HEADER_SIZE + 8 * c <= p
                - HEADER_SIZE
    }

    /// Distinct live heap allocations occupy disjoint address ranges.
    pub open spec fn alloc_alloc_disjoint(self) -> bool {
        forall|p1: usize, p2: usize|
            #![trigger self.allocs()[p1], self.allocs()[p2]]
            self.allocs().dom().contains(p1) && self.allocs().dom().contains(p2) && p1 != p2
                && !self.allocs()[p1].mm && !self.allocs()[p2].mm ==> p1 + self.allocs()[p1].size
                <= p2 - HEADER_SIZE || p2 + self.allocs()[p2].size <= p1 - HEADER_SIZE
    }

    /// The allocator's internal invariant: constructors establish it and
    /// every operation preserves it.
    pub open spec fn wf(self) -> bool {
        &&& self.mem.wf()
        &&& self.table@.len() == NUMBER_OF_MEM_BLOCKS
        &&& self.lists().len() == NUMBER_OF_MEM_BLOCKS
        &&& self.table@[0] == 0
        &&& self.lists()[0].len() == 0
        &&& forall|c: int| 1 <= c < NUMBER_OF_MEM_BLOCKS ==> self.class_ok(c)
        &&& self.free_disjoint()
        &&& forall|p: usize| self.allocs().dom().contains(p) ==> self.alloc_ok(p)
        &&& self.alloc_free_disjoint()
        &&& self.alloc_alloc_disjoint()
        &&& !self.initialized ==> {
            &&& self.mem.heap@.len() == 0
            &&& self.mem.regions@.len() == 0
            &&& forall|c: int| 0 <= c < NUMBER_OF_MEM_BLOCKS ==> self.lists()[c].len() == 0
            &&& self.allocs() == Map::<usize, Block>::empty()
        }
    }

    /// Every free block and every heap allocation ends at or below `bound`.
    pub open spec fn blocks_below(self, bound: int) -> bool {
        &&& forall|c: int, k: int|
            #![trigger self.lists()[c][k]]
            1 <= c < NUMBER_OF_MEM_BLOCKS && 0 <= k < self.lists()[c].len() ==> self.lists()[c][k]
                + HEADER_SIZE + 8 * c <= bound
        &&& forall|p: usize|
            self.allocs().dom().contains(p) && !(#[trigger] self.allocs()[p]).mm ==> p
                + self.allocs()[p].size <= bound
    }

    /// A fresh, uninitialized allocator over an address space that may grow
    /// to `heap_cap` heap bytes and `map_cap` mapped bytes.
    pub fn new(heap_cap: usize, map_cap: usize) -> (r: Allocator)
        requires
            HEAP_BASE + heap_cap + map_cap < usize::MAX,
        ensures
            r.wf(),
            !r.is_initialized(),
            r.allocs() == Map::<usize, Block>::empty(),
            r.mem.heap_cap == heap_cap,
            r.mem.map_limit == HEAP_BASE + heap_cap + map_cap,
            r.mem.cursor == HEAP_BASE + heap_cap,
    {
        let mut table: Vec<usize> = Vec::new();
        let mut i: usize = 0;
        while i < NUMBER_OF_MEM_BLOCKS
            invariant
                i <= NUMBER_OF_MEM_BLOCKS,
                table@.len() == i,
                forall|j: int| 0 <= j < i ==> table@[j] == 0usize,
            decreases NUMBER_OF_MEM_BLOCKS - i,
        {
            table.push(0);
            i = i + 1;
        }
        Allocator {
            mem: Memory::new(heap_cap, map_cap),
            table,
            initialized: false,
            free_lists: Ghost(Seq::new(NUMBER_OF_MEM_BLOCKS as nat, |c: int| Seq::empty())),
            alloc_map: Ghost(Map::empty()),
        }
    }
}

/// Address of the `j`-th block slot in a batch carved at `start` with
/// block stride `bs` (header plus payload).
pub open spec fn slot(start: int, bs: int, j: int) -> int {
    start + j * bs
}

#[verifier::rlimit(100)]
proof fn lemma_carve_class_ok(pre: Allocator, fin: Allocator, c: int, num: int, start: int, old_head: usize)
    requires
        pre.wf(),
        pre.is_initialized(),
        1 <= c < NUMBER_OF_MEM_BLOCKS,
        1 <= num <= 64,
        HEAP_BASE <= start,
        start + num * (8 * c + HEADER_SIZE) <= pre.brk(),
        pre.blocks_below(start),
        old_head == pre.table@[c],
        fin.initialized == pre.initialized,
        fin.alloc_map@ == pre.alloc_map@,
        fin.table@ == pre.table@.update(c, (start as usize)),
        fin.free_lists@ == pre.lists().update(
            c,
            Seq::new(num as nat, |jj: int| slot(start, 8 * c + HEADER_SIZE, jj) as usize)
                + pre.lists()[c],
        ),
        fin.mem.wf(),
        fin.mem.same_layout(pre.mem),
        forall|a: int| fin.mem.valid(a) == pre.mem.valid(a),
        forall|x: int|
            !(start <= x < start + num * (8 * c + HEADER_SIZE)) ==> fin.mem.byte_at(x)
                == pre.mem.byte_at(x),
        forall|jj: int|
            0 <= jj < num ==> {
                let a = #[trigger] slot(start, 8 * c + HEADER_SIZE, jj);
                &&& word_at(fin.mem, a) == 8 * c
                &&& word_at(fin.mem, a + 8) == 0
                &&& word_at(fin.mem, a + 16) == (if jj + 1 < num {
                    a + (8 * c + HEADER_SIZE)
                } else {
                    old_head as int
                })
            },
    ensures
        forall|cc: int| 1 <= cc < NUMBER_OF_MEM_BLOCKS ==> fin.class_ok(cc),
{
    let bs = 8 * c + HEADER_SIZE;
    let nbs = num * bs;
    let carved = Seq::new(num as nat, |jj: int| slot(start, bs, jj) as usize);
    assert(fin.mem.brk() == pre.mem.brk());
    assert(pre.brk() < usize::MAX) by {
        assert(pre.mem.heap@.len() <= pre.mem.heap_cap);
    }
    assert forall|jj: int| 0 <= jj < num implies 0 <= jj * bs && (jj + 1) * bs <= num * bs
        && #[trigger] slot(start, bs, jj) + bs <= start + nbs && start <= slot(start, bs, jj)
        && slot(start, bs, jj + 1) == slot(start, bs, jj) + bs && (slot(start, bs, jj) as usize)
        as int == slot(start, bs, jj) by {
        vstd::arithmetic::mul::lemma_mul_nonnegative(jj, bs);
        lemma_mul_inequality(jj + 1, num, bs);
        assert((jj + 1) * bs == jj * bs + bs) by (nonlinear_arith);
    };
    assert forall|cc: int| 1 <= cc < NUMBER_OF_MEM_BLOCKS implies fin.class_ok(cc) by {
        if cc == c {
            assert(fin.lists()[cc] == carved + pre.lists()[c]);
            assert(carved[0] == slot(start, bs, 0) as usize);
            assert(slot(start, bs, 0) == start);
            assert(fin.table@[cc] == start as usize);
            assert forall|k: int| 0 <= k < fin.lists()[cc].len() implies fin.free_block_ok(
                cc,
                k,
            ) by {
                let l = fin.lists()[cc];
                assert(pre.class_ok(c));
                if k < num {
                    assert(l[k] == carved[k]);
                    assert(carved[k] == slot(start, bs, k) as usize);
                    let a = l[k] as int;
                    assert(a == slot(start, bs, k));
                    assert(HEAP_BASE <= a);
                    assert(a + HEADER_SIZE + 8 * cc <= fin.mem.brk());
                    assert(word_at(fin.mem, a) == 8 * cc);
                    assert(word_at(fin.mem, a + 8) == 0);
                    if k + 1 < num {
                        assert(l[k + 1] == carved[k + 1]);
                        assert(carved[k + 1] == slot(start, bs, k + 1) as usize);
                        assert(word_at(fin.mem, a + 16) == slot(start, bs, k + 1));
                        assert(word_at(fin.mem, a + 16) == l[k + 1] as int);
                    } else if pre.lists()[c].len() > 0 {
                        assert(l[num] == pre.lists()[c][0]);
                        assert(word_at(fin.mem, a + 16) == old_head as int);
                        assert(old_head == pre.lists()[c][0]);
                    } else {
                        assert(l.len() == num);
                        assert(word_at(fin.mem, a + 16) == old_head as int);
                        assert(old_head == 0usize);
                    }
                } else {
                    let k0 = k - num;
                    assert(pre.class_ok(c));
                    assert(pre.free_block_ok(c, k0));
                    assert(l[k] == pre.lists()[c][k0]);
                    let a = l[k] as int;
                    assert(a + HEADER_SIZE + 8 * cc <= start);
                    crate::os::lemma_word_preserved(pre.mem, fin.mem, a);
                    crate::os::lemma_word_preserved(pre.mem, fin.mem, a + 8);
                    crate::os::lemma_word_preserved(pre.mem, fin.mem, a + 16);
                    if k + 1 < l.len() {
                        assert(l[k + 1] == pre.lists()[c][k0 + 1]);
                    }
                }
            };
        } else {
            assert(pre.class_ok(cc));
            assert(fin.lists()[cc] == pre.lists()[cc]);
            assert(fin.table@[cc] == pre.table@[cc]);
            assert forall|k: int| 0 <= k < fin.lists()[cc].len() implies fin.free_block_ok(
                cc,
                k,
            ) by {
                assert(pre.free_block_ok(cc, k));
                let a = fin.lists()[cc][k] as int;
                assert(a + HEADER_SIZE + 8 * cc <= start);
                crate::os::lemma_word_preserved(pre.mem, fin.mem, a);
                crate::os::lemma_word_preserved(pre.mem, fin.mem, a + 8);
                crate::os::lemma_word_preserved(pre.mem, fin.mem, a + 16);
            };
        }
    };
}

#[verifier::rlimit(100)]
proof fn lemma_carve_free_disjoint(pre: Allocator, fin: Allocator, c: int, num: int, start: int, old_head: usize)
    requires
        pre.wf(),
        pre.is_initialized(),
        1 <= c < NUMBER_OF_MEM_BLOCKS,
        1 <= num <= 64,
        HEAP_BASE <= start,
        start + num * (8 * c + HEADER_SIZE) <= pre.brk(),
        pre.blocks_below(start),
        old_head == pre.table@[c],
        fin.initialized == pre.initialized,
        fin.alloc_map@ == pre.alloc_map@,
        fin.table@ == pre.table@.update(c, (start as usize)),
        fin.free_lists@ == pre.lists().update(
            c,
            Seq::new(num as nat, |jj: int| slot(start, 8 * c + HEADER_SIZE, jj) as usize)
                + pre.lists()[c],
        ),
        fin.mem.wf(),
        fin.mem.same_layout(pre.mem),
        forall|a: int| fin.mem.valid(a) == pre.mem.valid(a),
        forall|x: int|
            !(start <= x < start + num * (8 * c + HEADER_SIZE)) ==> fin.mem.byte_at(x)
                == pre.mem.byte_at(x),
        forall|jj: int|
            0 <= jj < num ==> {
                let a = #[trigger] slot(start, 8 * c + HEADER_SIZE, jj);
                &&& word_at(fin.mem, a) == 8 * c
                &&& word_at(fin.mem, a + 8) == 0
                &&& word_at(fin.mem, a + 16) == (if jj + 1 < num {
                    a + (8 * c + HEADER_SIZE)
                } else {
                    old_head as int
                })
            },
    ensures
        fin.free_disjoint(),
{
    let bs = 8 * c + HEADER_SIZE;
    let nbs = num * bs;
    let carved = Seq::new(num as nat, |jj: int| slot(start, bs, jj) as usize);
    assert(fin.mem.brk() == pre.mem.brk());
    assert(pre.brk() < usize::MAX) by {
        assert(pre.mem.heap@.len() <= pre.mem.heap_cap);
    }
    assert forall|jj: int| 0 <= jj < num implies 0 <= jj * bs && (jj + 1) * bs <= num * bs
        && #[trigger] slot(start, bs, jj) + bs <= start + nbs && start <= slot(start, bs, jj)
        && slot(start, bs, jj + 1) == slot(start, bs, jj) + bs && (slot(start, bs, jj) as usize)
        as int == slot(start, bs, jj) by {
        vstd::arithmetic::mul::lemma_mul_nonnegative(jj, bs);
        lemma_mul_inequality(jj + 1, num, bs);
        assert((jj + 1) * bs == jj * bs + bs) by (nonlinear_arith);
    };
    assert forall|c1: int, k1: int, c2: int, k2: int|
        #![trigger fin.lists()[c1][k1], fin.lists()[c2][k2]]
        1 <= c1 < NUMBER_OF_MEM_BLOCKS && 0 <= k1 < fin.lists()[c1].len() && 1 <= c2
            < NUMBER_OF_MEM_BLOCKS && 0 <= k2 < fin.lists()[c2].len() && !(c1 == c2 && k1
            == k2) implies fin.lists()[c1][k1] + HEADER_SIZE + 8 * c1 <= fin.lists()[c2][k2]
        || fin.lists()[c2][k2] + HEADER_SIZE + 8 * c2 <= fin.lists()[c1][k1] by {
        let a1 = fin.lists()[c1][k1] as int;
        let a2 = fin.lists()[c2][k2] as int;
        let new1 = c1 == c && k1 < num;
        let new2 = c2 == c && k2 < num;
        if new1 && new2 {
            assert(a1 == slot(start, bs, k1));
            assert(a2 == slot(start, bs, k2));
            if k1 < k2 {
                lemma_mul_inequality(k1 + 1, k2, bs);
                assert((k1 + 1) * bs == k1 * bs + bs) by (nonlinear_arith);
            } else {
                lemma_mul_inequality(k2 + 1, k1, bs);
                assert((k2 + 1) * bs == k2 * bs + bs) by (nonlinear_arith);
            }
        } else if new1 {
            let k2p: int = if c2 == c {
                k2 - num
            } else {
                k2
            };
            assert(a2 == pre.lists()[c2][k2p]);
            assert(a2 + HEADER_SIZE + 8 * c2 <= start);
            assert(a1 == slot(start, bs, k1));
        } else if new2 {
            let k1p: int = if c1 == c {
                k1 - num
            } else {
                k1
            };
            assert(a1 == pre.lists()[c1][k1p]);
            assert(a1 + HEADER_SIZE + 8 * c1 <= start);
            assert(a2 == slot(start, bs, k2));
        } else {
            let k1p: int = if c1 == c {
                k1 - num
            } else {
                k1
            };
            let k2p: int = if c2 == c {
                k2 - num
            } else {
                k2
            };
            assert(a1 == pre.lists()[c1][k1p]);
            assert(a2 == pre.lists()[c2][k2p]);
            assert(pre.free_disjoint());
            assert(!(c1 == c2 && k1p == k2p));
        }
    };
}

#[verifier::rlimit(100)]
proof fn lemma_carve_alloc(pre: Allocator, fin: Allocator, c: int, num: int, start: int, old_head: usize)
    requires
        pre.wf(),
        pre.is_initialized(),
        1 <= c < NUMBER_OF_MEM_BLOCKS,
        1 <= num <= 64,
        HEAP_BASE <= start,
        start + num * (8 * c + HEADER_SIZE) <= pre.brk(),
        pre.blocks_below(start),
        old_head == pre.table@[c],
        fin.initialized == pre.initialized,
        fin.alloc_map@ == pre.alloc_map@,
        fin.table@ == pre.table@.update(c, (start as usize)),
        fin.free_lists@ == pre.lists().update(
            c,
            Seq::new(num as nat, |jj: int| slot(start, 8 * c + HEADER_SIZE, jj) as usize)
                + pre.lists()[c],
        ),
        fin.mem.wf(),
        fin.mem.same_layout(pre.mem),
        forall|a: int| fin.mem.valid(a) == pre.mem.valid(a),
        forall|x: int|
            !(start <= x < start + num * (8 * c + HEADER_SIZE)) ==> fin.mem.byte_at(x)
                == pre.mem.byte_at(x),
        forall|jj: int|
            0 <= jj < num ==> {
                let a = #[trigger] slot(start, 8 * c + HEADER_SIZE, jj);
                &&& word_at(fin.mem, a) == 8 * c
                &&& word_at(fin.mem, a + 8) == 0
                &&& word_at(fin.mem, a + 16) == (if jj + 1 < num {
                    a + (8 * c + HEADER_SIZE)
                } else {
                    old_head as int
                })
            },
    ensures
        forall|p: usize| fin.allocs().dom().contains(p) ==> fin.alloc_ok(p),
        fin.alloc_free_disjoint(),
        fin.blocks_below(start + num * (8 * c + HEADER_SIZE)),
{
    let bs = 8 * c + HEADER_SIZE;
    let nbs = num * bs;
    let carved = Seq::new(num as nat, |jj: int| slot(start, bs, jj) as usize);
    assert(fin.mem.brk() == pre.mem.brk());
    assert(pre.brk() < usize::MAX) by {
        assert(pre.mem.heap@.len() <= pre.mem.heap_cap);
    }
    assert forall|jj: int| 0 <= jj < num implies 0 <= jj * bs && (jj + 1) * bs <= num * bs
        && #[trigger] slot(start, bs, jj) + bs <= start + nbs && start <= slot(start, bs, jj)
        && slot(start, bs, jj + 1) == slot(start, bs, jj) + bs && (slot(start, bs, jj) as usize)
        as int == slot(start, bs, jj) by {
        vstd::arithmetic::mul::lemma_mul_nonnegative(jj, bs);
        lemma_mul_inequality(jj + 1, num, bs);
        assert((jj + 1) * bs == jj * bs + bs) by (nonlinear_arith);
    };
    assert forall|p: usize| fin.allocs().dom().contains(p) implies fin.alloc_ok(p) by {
        assert(pre.alloc_ok(p));
        let b = pre.allocs()[p];
        if !b.mm {
            assert(p + b.size <= start);
            crate::os::lemma_word_preserved(pre.mem, fin.mem, p - HEADER_SIZE);
            crate::os::lemma_word_preserved(pre.mem, fin.mem, p - 16);
        } else {
            assert(pre.mem.regions@[b.ri as int].base >= pre.mem.mmap_base());
            assert(start + nbs <= pre.mem.brk());
            crate::os::lemma_word_preserved(pre.mem, fin.mem, p - HEADER_SIZE);
            crate::os::lemma_word_preserved(pre.mem, fin.mem, p - 16);
        }
    };
    assert forall|p: usize, cc: int, k: int|
        #![trigger fin.allocs()[p], fin.lists()[cc][k]]
        fin.allocs().dom().contains(p) && !fin.allocs()[p].mm && 1 <= cc < NUMBER_OF_MEM_BLOCKS
            && 0 <= k < fin.lists()[cc].len() implies p + fin.allocs()[p].size
        <= fin.lists()[cc][k] || fin.lists()[cc][k] + HEADER_SIZE + 8 * cc <= p
        - HEADER_SIZE by {
        assert(pre.allocs().dom().contains(p));
        assert(p + pre.allocs()[p].size <= start);
        if cc == c && k < num {
            assert(fin.lists()[cc][k] == slot(start, bs, k) as usize);
        } else {
            let kp: int = if cc == c {
                k - num
            } else {
                k
            };
            assert(fin.lists()[cc][k] == pre.lists()[cc][kp]);
            assert(pre.alloc_free_disjoint());
        }
    };
    assert forall|cc: int, k: int|
        #![trigger fin.lists()[cc][k]]
        1 <= cc < NUMBER_OF_MEM_BLOCKS && 0 <= k < fin.lists()[cc].len() implies fin.lists()[cc][k]
        + HEADER_SIZE + 8 * cc <= start + nbs by {
        if cc == c && k < num {
            assert(fin.lists()[cc][k] == slot(start, bs, k) as usize);
        } else {
            let kp: int = if cc == c {
                k - num
            } else {
                k
            };
            assert(fin.lists()[cc][k] == pre.lists()[cc][kp]);
            assert(nbs >= 0) by {
                vstd::arithmetic::mul::lemma_mul_nonnegative(num, bs);
            }
        }
    };
}

/// Closing argument for `carve`: once the batch's headers are written and
/// the table and ghost lists updated, the allocator is well formed again.
proof fn lemma_carve_finish(pre: Allocator, fin: Allocator, c: int, num: int, start: int, old_head: usize)
    requires
        pre.wf(),
        pre.is_initialized(),
        1 <= c < NUMBER_OF_MEM_BLOCKS,
        1 <= num <= 64,
        HEAP_BASE <= start,
        start + num * (8 * c + HEADER_SIZE) <= pre.brk(),
        pre.blocks_below(start),
        old_head == pre.table@[c],
        fin.initialized == pre.initialized,
        fin.alloc_map@ == pre.alloc_map@,
        fin.table@ == pre.table@.update(c, (start as usize)),
        fin.free_lists@ == pre.lists().update(
            c,
            Seq::new(num as nat, |jj: int| slot(start, 8 * c + HEADER_SIZE, jj) as usize)
                + pre.lists()[c],
        ),
        fin.mem.wf(),
        fin.mem.same_layout(pre.mem),
        forall|a: int| fin.mem.valid(a) == pre.mem.valid(a),
        forall|x: int|
            !(start <= x < start + num * (8 * c + HEADER_SIZE)) ==> fin.mem.byte_at(x)
                == pre.mem.byte_at(x),
        forall|jj: int|
            0 <= jj < num ==> {
                let a = #[trigger] slot(start, 8 * c + HEADER_SIZE, jj);
                &&& word_at(fin.mem, a) == 8 * c
                &&& word_at(fin.mem, a + 8) == 0
                &&& word_at(fin.mem, a + 16) == (if jj + 1 < num {
                    a + (8 * c + HEADER_SIZE)
                } else {
                    old_head as int
                })
            },
    ensures
        fin.wf(),
        fin.blocks_below(start + num * (8 * c + HEADER_SIZE)),
{
    lemma_carve_class_ok(pre, fin, c, num, start, old_head);
    lemma_carve_free_disjoint(pre, fin, c, num, start, old_head);
    lemma_carve_alloc(pre, fin, c, num, start, old_head);
    assert forall|p1: usize, p2: usize|
        #![trigger fin.allocs()[p1], fin.allocs()[p2]]
        fin.allocs().dom().contains(p1) && fin.allocs().dom().contains(p2) && p1 != p2
            && !fin.allocs()[p1].mm && !fin.allocs()[p2].mm implies p1 + fin.allocs()[p1].size
        <= p2 - HEADER_SIZE || p2 + fin.allocs()[p2].size <= p1 - HEADER_SIZE by {
        assert(pre.alloc_alloc_disjoint());
        assert(fin.allocs()[p1] == pre.allocs()[p1]);
        assert(fin.allocs()[p2] == pre.allocs()[p2]);
    }
}

/// What holds after a block has been taken off a free list: the returned
/// header address `a` carries a correct free-list header for `size`, lies in
/// the heap, and its range is disjoint from every remaining free block and
/// every live allocation; bytes that were accessible before are untouched.
pub open spec fn popped_ok(pre: Allocator, post: Allocator, size: usize, a: usize) -> bool {
    let c = size as int / 8;
    &&& HEAP_BASE <= a
    &&& a + HEADER_SIZE + size <= post.mem.brk()
    &&& word_at(post.mem, a as int) == size
    &&& word_at(post.mem, a as int + 8) == 0
    &&& forall|cc: int, k: int|
        #![trigger post.lists()[cc][k]]
        1 <= cc < NUMBER_OF_MEM_BLOCKS && 0 <= k < post.lists()[cc].len() ==> a + HEADER_SIZE
            + size <= post.lists()[cc][k] || post.lists()[cc][k] + HEADER_SIZE + 8 * cc <= a
    &&& forall|p: usize|
        post.allocs().dom().contains(p) && !(#[trigger] post.allocs()[p]).mm ==> p
            + post.allocs()[p].size <= a || a + HEADER_SIZE + size <= p - HEADER_SIZE
    &&& !post.allocs().dom().contains((a + HEADER_SIZE) as usize)
    &&& pre.lists()[c].len() > 0 ==> a == pre.lists()[c][0] && post.mem == pre.mem
        && post.lists() == pre.lists().update(c, pre.lists()[c].drop_first())
    &&& forall|cc: int|
        0 <= cc < NUMBER_OF_MEM_BLOCKS && cc != c ==> post.lists()[cc] == pre.lists()[cc]
    &&& forall|x: int|
        pre.mem.valid(x) ==> post.mem.valid(x) && post.mem.byte_at(x) == pre.mem.byte_at(x)
    &&& post.mem.regions@ == pre.mem.regions@
    &&& post.mem.cursor == pre.mem.cursor
    &&& post.mem.map_limit == pre.mem.map_limit
    &&& post.mem.heap_cap == pre.mem.heap_cap
}

/// Taking the head block off the free list of class `c` (updating the table
/// slot to the head's link) keeps the allocator well formed, and the removed
/// block is disjoint from everything that remains.
proof fn lemma_pop_finish(pre: Allocator, post: Allocator, c: int)
    requires
        pre.wf(),
        pre.is_initialized(),
        1 <= c < NUMBER_OF_MEM_BLOCKS,
        pre.lists()[c].len() > 0,
        post.mem == pre.mem,
        post.initialized == pre.initialized,
        post.alloc_map@ == pre.alloc_map@,
        post.free_lists@ == pre.lists().update(c, pre.lists()[c].drop_first()),
        post.table@ == pre.table@.update(
            c,
            (if pre.lists()[c].len() > 1 {
                pre.lists()[c][1]
            } else {
                0usize
            }),
        ),
    ensures
        post.wf(),
        popped_ok(pre, post, (8 * c) as usize, pre.lists()[c][0]),
{
    let a = pre.lists()[c][0];
    let size = (8 * c) as usize;
    assert(pre.class_ok(c));
    assert(pre.free_block_ok(c, 0));
    assert forall|cc: int| 1 <= cc < NUMBER_OF_MEM_BLOCKS implies post.class_ok(cc) by {
        assert(pre.class_ok(cc));
        if cc == c {
            assert(post.lists()[cc] == pre.lists()[c].drop_first());
            assert forall|k: int| 0 <= k < post.lists()[cc].len() implies post.free_block_ok(
                cc,
                k,
            ) by {
                assert(pre.free_block_ok(cc, k + 1));
                assert(post.lists()[cc][k] == pre.lists()[cc][k + 1]);
                if k + 1 < post.lists()[cc].len() {
                    assert(post.lists()[cc][k + 1] == pre.lists()[cc][k + 2]);
                }
            };
            if pre.lists()[c].len() > 1 {
                assert(post.lists()[cc][0] == pre.lists()[cc][1]);
            }
        } else {
            assert(post.lists()[cc] == pre.lists()[cc]);
            assert(post.table@[cc] == pre.table@[cc]);
            assert forall|k: int| 0 <= k < post.lists()[cc].len() implies post.free_block_ok(
                cc,
                k,
            ) by {
                assert(pre.free_block_ok(cc, k));
            };
        }
    };
    assert forall|c1: int, k1: int, c2: int, k2: int|
        #![trigger post.lists()[c1][k1], post.lists()[c2][k2]]
        1 <= c1 < NUMBER_OF_MEM_BLOCKS && 0 <= k1 < post.lists()[c1].len() && 1 <= c2
            < NUMBER_OF_MEM_BLOCKS && 0 <= k2 < post.lists()[c2].len() && !(c1 == c2 && k1
            == k2) implies post.lists()[c1][k1] + HEADER_SIZE + 8 * c1 <= post.lists()[c2][k2]
        || post.lists()[c2][k2] + HEADER_SIZE + 8 * c2 <= post.lists()[c1][k1] by {
        assert(pre.free_disjoint());
        let k1p: int = if c1 == c {
            k1 + 1
        } else {
            k1
        };
        let k2p: int = if c2 == c {
            k2 + 1
        } else {
            k2
        };
        assert(post.lists()[c1][k1] == pre.lists()[c1][k1p]);
        assert(post.lists()[c2][k2] == pre.lists()[c2][k2p]);
    };
    assert forall|p: usize| post.allocs().dom().contains(p) implies post.alloc_ok(p) by {
        assert(pre.alloc_ok(p));
        assert(post.allocs()[p] == pre.allocs()[p]);
    };
    assert forall|p: usize, cc: int, k: int|
        #![trigger post.allocs()[p], post.lists()[cc][k]]
        post.allocs().dom().contains(p) && !post.allocs()[p].mm && 1 <= cc < NUMBER_OF_MEM_BLOCKS
            && 0 <= k < post.lists()[cc].len() implies p + post.allocs()[p].size
        <= post.lists()[cc][k] || post.lists()[cc][k] + HEADER_SIZE + 8 * cc <= p
        - HEADER_SIZE by {
        assert(pre.alloc_free_disjoint());
        assert(post.allocs()[p] == pre.allocs()[p]);
        let kp: int = if cc == c {
            k + 1
        } else {
            k
        };
        assert(post.lists()[cc][k] == pre.lists()[cc][kp]);
    };
    assert forall|p1: usize, p2: usize|
        #![trigger post.allocs()[p1], post.allocs()[p2]]
        post.allocs().dom().contains(p1) && post.allocs().dom().contains(p2) && p1 != p2
            && !post.allocs()[p1].mm && !post.allocs()[p2].mm implies p1 + post.allocs()[p1].size
        <= p2 - HEADER_SIZE || p2 + post.allocs()[p2].size <= p1 - HEADER_SIZE by {
        assert(pre.alloc_alloc_disjoint());
        assert(post.allocs()[p1] == pre.allocs()[p1]);
        assert(post.allocs()[p2] == pre.allocs()[p2]);
    };
    // The removed block is disjoint from every remaining free block ...
    assert forall|cc: int, k: int|
        #![trigger post.lists()[cc][k]]
        1 <= cc < NUMBER_OF_MEM_BLOCKS && 0 <= k < post.lists()[cc].len() implies a + HEADER_SIZE
        + size <= post.lists()[cc][k] || post.lists()[cc][k] + HEADER_SIZE + 8 * cc <= a by {
        assert(pre.free_disjoint());
        let kp: int = if cc == c {
            k + 1
        } else {
            k
        };
        assert(post.lists()[cc][k] == pre.lists()[cc][kp]);
        assert(!(cc == c && kp == 0));
    };
    // ... and from every live allocation.
    assert forall|p: usize|
        post.allocs().dom().contains(p) && !(#[trigger] post.allocs()[p]).mm implies p
        + post.allocs()[p].size <= a || a + HEADER_SIZE + size <= p - HEADER_SIZE by {
        assert(pre.alloc_free_disjoint());
        assert(post.allocs()[p] == pre.allocs()[p]);
        assert(pre.lists()[c][0] == a);
    };
    assert(!post.allocs().dom().contains((a + HEADER_SIZE) as usize)) by {
        let p = (a + HEADER_SIZE) as usize;
        if post.allocs().dom().contains(p) {
            assert(pre.alloc_free_disjoint());
            assert(pre.alloc_ok(p));
            if pre.allocs()[p].mm {
                assert(pre.mem.regions@[pre.allocs()[p].ri as int].base >= pre.mem.mmap_base());
                assert(p == a + HEADER_SIZE <= pre.mem.brk());
            } else {
                assert(p + pre.allocs()[p].size <= pre.lists()[c][0] || pre.lists()[c][0]
                    + HEADER_SIZE + 8 * c <= p - HEADER_SIZE);
            }
        }
    }
}

/// The free-list population and heap/cursor accounting that allocation
/// guarantees, by path: a pop from a stocked class removes exactly its head;
/// a growth or the bootstrap stocks the class (one batch, minus the block
/// handed out) and touches no other class; a mapped allocation advances only
/// the mapping cursor.
pub open spec fn alloc_lists_post(pre: Allocator, post: Allocator, size: usize, r: usize) -> bool {
    let al = align_spec(size as int);
    let c = al / 8;
    &&& (r != 0 && pre.is_initialized() && al <= MAX_HEAP_SIZE && pre.lists()[c].len() > 0
        ==> post.lists() == pre.lists().update(c, pre.lists()[c].drop_first())
            && post.mem.heap@.len() == pre.mem.heap@.len())
    &&& (r != 0 && pre.is_initialized() && al <= MAX_HEAP_SIZE && pre.lists()[c].len() == 0 ==> {
        &&& post.lists()[c].len() == class_batch_count(c) - 1
        &&& (forall|cc: int|
            0 <= cc < NUMBER_OF_MEM_BLOCKS && cc != c ==> (#[trigger] post.lists()[cc])
                == pre.lists()[cc])
        &&& post.mem.heap@.len() == pre.mem.heap@.len() + class_batch_bytes(c)
    })
    &&& (r != 0 && pre.is_initialized() && al > MAX_HEAP_SIZE ==> post.lists() == pre.lists()
        && post.mem.heap@.len() == pre.mem.heap@.len())
    &&& (r != 0 && !pre.is_initialized() ==> {
        &&& post.mem.heap@.len() == init_total_bytes()
        &&& (al <= MAX_HEAP_SIZE ==> post.lists()[c].len() == class_batch_count(c) - 1 && (
        forall|cc: int|
            1 <= cc < NUMBER_OF_MEM_BLOCKS && cc != c ==> (#[trigger] post.lists()[cc]).len()
                == class_batch_count(cc)))
        &&& (al > MAX_HEAP_SIZE ==> (forall|cc: int|
            1 <= cc < NUMBER_OF_MEM_BLOCKS ==> (#[trigger] post.lists()[cc]).len()
                == class_batch_count(cc)))
    })
    &&& (r != 0 && al > MAX_HEAP_SIZE ==> post.mem.cursor == pre.mem.cursor + size + HEADER_SIZE)
}

/// The block `malloc` records for a request of `size` bytes: a free-list
/// block of the aligned size, or a mapped block whose size field holds the
/// total mapped length (request plus header).
pub open spec fn alloc_block(pre: Allocator, size: usize) -> Block {
    if align_spec(size as int) <= MAX_HEAP_SIZE {
        Block { size: align_spec(size as int) as usize, mm: false, ri: 0 }
    } else {
        Block { size: (size + HEADER_SIZE) as usize, mm: true, ri: pre.mem.regions@.len() as usize }
    }
}

/// Exactly when `malloc` returns the null pointer: a zero-size request, a
/// bootstrap the kernel model refused, an exhausted size class that cannot
/// grow, or a large request with no mapping room left.
pub open spec fn malloc_fails(pre: Allocator, size: usize) -> bool {
    let al = align_spec(size as int);
    let c = al / 8;
    ||| size == 0
    ||| !pre.is_initialized() && init_total_bytes() > pre.mem.heap_cap
    ||| al <= MAX_HEAP_SIZE && pre.is_initialized() && pre.lists()[c].len() == 0
        && !pre.heap_room(class_batch_bytes(c))
    ||| al > MAX_HEAP_SIZE && !pre.map_room(size + HEADER_SIZE)
}

/// The full contract of `malloc`, relating the state before the call, the
/// state after it, the requested size and the returned pointer.
pub open spec fn malloc_post(pre: Allocator, post: Allocator, size: usize, r: usize) -> bool {
    let al = align_spec(size as int);
    let c = al / 8;
    &&& (r == 0 <==> malloc_fails(pre, size))
    &&& post.is_initialized() == (pre.is_initialized() || size > 0)
    &&& (size == 0 ==> post == pre)
    &&& (r == 0 ==> post.allocs() == pre.allocs() && post.mem.regions@ == pre.mem.regions@
        && post.mem.cursor == pre.mem.cursor && forall|x: int|
        pre.mem.valid(x) ==> post.mem.valid(x) && post.mem.byte_at(x) == pre.mem.byte_at(x))
    &&& (r == 0 && pre.is_initialized() ==> post == pre)
    &&& alloc_lists_post(pre, post, size, r)
    &&& post.mem.map_limit == pre.mem.map_limit
    &&& post.mem.heap_cap == pre.mem.heap_cap
    &&& (r == 0 || al <= MAX_HEAP_SIZE ==> post.mem.cursor == pre.mem.cursor)
    &&& (r != 0 ==> {
        &&& !pre.allocs().dom().contains(r)
        &&& r >= HEAP_BASE + HEADER_SIZE
        &&& post.allocs() == pre.allocs().insert(r, alloc_block(pre, size))
        &&& word_at(post.mem, r as int - HEADER_SIZE) == (if al <= MAX_HEAP_SIZE {
            al
        } else {
            size + HEADER_SIZE
        })
        &&& word_at(post.mem, r as int - 16) == (if al <= MAX_HEAP_SIZE {
            0int
        } else {
            1int
        })
        &&& forall|x: int|
            pre.mem.valid(x) ==> post.mem.valid(x) && post.mem.byte_at(x) == pre.mem.byte_at(x)
    })
    &&& (r != 0 && al > MAX_HEAP_SIZE ==> forall|x: int|
        r <= x < r + size ==> post.mem.byte_at(x) == 0)
    &&& (r != 0 && al > MAX_HEAP_SIZE && pre.is_initialized() ==> forall|x: int|
        post.mem.valid(x) ==> pre.mem.valid(x) || r - HEADER_SIZE <= x < r + size)
    &&& (pre.is_initialized() ==> {
        &&& (r != 0 && al <= MAX_HEAP_SIZE && pre.lists()[c].len() > 0 ==> r == pre.lists()[c][0]
            + HEADER_SIZE && post.lists() == pre.lists().update(c, pre.lists()[c].drop_first())
            && post.mem == pre.mem)
        &&& (al > MAX_HEAP_SIZE || r == 0 ==> post.lists() == pre.lists() && post.table@
            == pre.table@)
    })
}

/// Recording a popped free-list block as a live allocation keeps the
/// allocator well formed: the new block is disjoint from everything and its
/// header already carries the class size and the free-list origin flag.
#[verifier::rlimit(100)]
proof fn lemma_insert_small(s1: Allocator, post: Allocator, a: usize, size: usize)
    requires
        s1.wf(),
        s1.is_initialized(),
        8 <= size <= MAX_HEAP_SIZE,
        size % 8 == 0,
        HEAP_BASE <= a,
        a + HEADER_SIZE + size <= s1.mem.brk(),
        word_at(s1.mem, a as int) == size,
        word_at(s1.mem, a as int + 8) == 0,
        forall|cc: int, k: int|
            #![trigger s1.lists()[cc][k]]
            1 <= cc < NUMBER_OF_MEM_BLOCKS && 0 <= k < s1.lists()[cc].len() ==> a + HEADER_SIZE
                + size <= s1.lists()[cc][k] || s1.lists()[cc][k] + HEADER_SIZE + 8 * cc <= a,
        forall|p: usize|
            s1.allocs().dom().contains(p) && !(#[trigger] s1.allocs()[p]).mm ==> p
                + s1.allocs()[p].size <= a || a + HEADER_SIZE + size <= p - HEADER_SIZE,
        !s1.allocs().dom().contains((a + HEADER_SIZE) as usize),
        post.mem == s1.mem,
        post.initialized == s1.initialized,
        post.free_lists@ == s1.free_lists@,
        post.table@ == s1.table@,
        post.alloc_map@ == s1.alloc_map@.insert(
            (a + HEADER_SIZE) as usize,
            Block { size, mm: false, ri: 0 },
        ),
    ensures
        post.wf(),
{
    let np = (a + HEADER_SIZE) as usize;
    assert forall|cc: int| 1 <= cc < NUMBER_OF_MEM_BLOCKS implies post.class_ok(cc) by {
        assert(s1.class_ok(cc));
        assert forall|k: int| 0 <= k < post.lists()[cc].len() implies post.free_block_ok(
            cc,
            k,
        ) by {
            assert(s1.free_block_ok(cc, k));
        };
    };
    assert forall|c1: int, k1: int, c2: int, k2: int|
        #![trigger post.lists()[c1][k1], post.lists()[c2][k2]]
        1 <= c1 < NUMBER_OF_MEM_BLOCKS && 0 <= k1 < post.lists()[c1].len() && 1 <= c2
            < NUMBER_OF_MEM_BLOCKS && 0 <= k2 < post.lists()[c2].len() && !(c1 == c2 && k1
            == k2) implies post.lists()[c1][k1] + HEADER_SIZE + 8 * c1 <= post.lists()[c2][k2]
        || post.lists()[c2][k2] + HEADER_SIZE + 8 * c2 <= post.lists()[c1][k1] by {
        assert(s1.free_disjoint());
        assert(post.lists()[c1] == s1.lists()[c1]);
        assert(post.lists()[c2] == s1.lists()[c2]);
    };
    assert forall|p: usize| post.allocs().dom().contains(p) implies post.alloc_ok(p) by {
        if p == np {
            assert(post.allocs()[p] == Block { size, mm: false, ri: 0 });
        } else {
            assert(s1.alloc_ok(p));
            assert(post.allocs()[p] == s1.allocs()[p]);
        }
    };
    assert forall|p: usize, cc: int, k: int|
        #![trigger post.allocs()[p], post.lists()[cc][k]]
        post.allocs().dom().contains(p) && !post.allocs()[p].mm && 1 <= cc < NUMBER_OF_MEM_BLOCKS
            && 0 <= k < post.lists()[cc].len() implies p + post.allocs()[p].size
        <= post.lists()[cc][k] || post.lists()[cc][k] + HEADER_SIZE + 8 * cc <= p
        - HEADER_SIZE by {
        assert(post.lists()[cc] == s1.lists()[cc]);
        if p == np {
            assert(post.allocs()[p].size == size);
        } else {
            assert(s1.alloc_free_disjoint());
            assert(post.allocs()[p] == s1.allocs()[p]);
        }
    };
    assert forall|p1: usize, p2: usize|
        #![trigger post.allocs()[p1], post.allocs()[p2]]
        post.allocs().dom().contains(p1) && post.allocs().dom().contains(p2) && p1 != p2
            && !post.allocs()[p1].mm && !post.allocs()[p2].mm implies p1 + post.allocs()[p1].size
        <= p2 - HEADER_SIZE || p2 + post.allocs()[p2].size <= p1 - HEADER_SIZE by {
        assert(s1.alloc_alloc_disjoint());
        if p1 == np {
            assert(post.allocs()[p2] == s1.allocs()[p2]);
            assert(s1.allocs().dom().contains(p2));
        } else if p2 == np {
            assert(post.allocs()[p1] == s1.allocs()[p1]);
            assert(s1.allocs().dom().contains(p1));
        } else {
            assert(post.allocs()[p1] == s1.allocs()[p1]);
            assert(post.allocs()[p2] == s1.allocs()[p2]);
        }
    };
}

/// Recording a freshly mapped block as a live allocation keeps the
/// allocator well formed: the mapping is disjoint from the heap and from
/// every other mapping by construction.
#[verifier::rlimit(100)]
proof fn lemma_insert_mapped(s1: Allocator, post: Allocator, p: usize, total: usize, ri: usize)
    requires
        ri as int == post.mem.regions@.len() - 1,
        s1.wf(),
        s1.is_initialized(),
        MAX_HEAP_SIZE + HEADER_SIZE < total,
        post.mem.wf(),
        post.initialized == s1.initialized,
        post.free_lists@ == s1.free_lists@,
        post.table@ == s1.table@,
        post.alloc_map@ == s1.alloc_map@.insert(p, Block { size: total, mm: true, ri }),
        post.mem.heap@.len() == s1.mem.heap@.len(),
        post.mem.regions@.len() == s1.mem.regions@.len() + 1,
        forall|i: int|
            0 <= i < s1.mem.regions@.len() ==> {
                &&& (#[trigger] post.mem.regions@[i]).base == s1.mem.regions@[i].base
                &&& post.mem.regions@[i].live == s1.mem.regions@[i].live
                &&& post.mem.regions@[i].data@.len() == s1.mem.regions@[i].data@.len()
            },
        post.mem.regions@.last().live,
        post.mem.regions@.last().base + HEADER_SIZE == p,
        post.mem.regions@.last().data@.len() == total,
        word_at(post.mem, p as int - HEADER_SIZE) == total,
        word_at(post.mem, p as int - 16) == 1,
        forall|x: int|
            s1.mem.valid(x) ==> post.mem.valid(x) && post.mem.byte_at(x) == s1.mem.byte_at(x),
    ensures
        post.wf(),
{
    assert forall|cc: int| 1 <= cc < NUMBER_OF_MEM_BLOCKS implies post.class_ok(cc) by {
        assert(s1.class_ok(cc));
        assert forall|k: int| 0 <= k < post.lists()[cc].len() implies post.free_block_ok(
            cc,
            k,
        ) by {
            assert(s1.free_block_ok(cc, k));
            let a = post.lists()[cc][k] as int;
            assert(forall|x: int| a <= x < a + HEADER_SIZE ==> s1.mem.in_heap(x));
            crate::os::lemma_word_preserved(s1.mem, post.mem, a);
            crate::os::lemma_word_preserved(s1.mem, post.mem, a + 8);
            crate::os::lemma_word_preserved(s1.mem, post.mem, a + 16);
        };
    };
    assert forall|c1: int, k1: int, c2: int, k2: int|
        #![trigger post.lists()[c1][k1], post.lists()[c2][k2]]
        1 <= c1 < NUMBER_OF_MEM_BLOCKS && 0 <= k1 < post.lists()[c1].len() && 1 <= c2
            < NUMBER_OF_MEM_BLOCKS && 0 <= k2 < post.lists()[c2].len() && !(c1 == c2 && k1
            == k2) implies post.lists()[c1][k1] + HEADER_SIZE + 8 * c1 <= post.lists()[c2][k2]
        || post.lists()[c2][k2] + HEADER_SIZE + 8 * c2 <= post.lists()[c1][k1] by {
        assert(s1.free_disjoint());
        assert(post.lists()[c1] == s1.lists()[c1]);
        assert(post.lists()[c2] == s1.lists()[c2]);
    };
    assert forall|q: usize| post.allocs().dom().contains(q) implies post.alloc_ok(q) by {
        if q == p {
            assert(post.allocs()[q] == Block { size: total, mm: true, ri });
            assert(ri as int == post.mem.regions@.len() - 1);
            assert(post.mem.regions@[ri as int] == post.mem.regions@.last());
            assert(post.mem.regions@[ri as int].live);
            assert(post.mem.regions@[ri as int].base + HEADER_SIZE == p);
            assert(post.mem.regions@[ri as int].data@.len() == total);
        } else {
            assert(s1.alloc_ok(q));
            assert(post.allocs()[q] == s1.allocs()[q]);
            let b = s1.allocs()[q];
            if !b.mm {
                assert(forall|x: int| q - HEADER_SIZE <= x < q ==> s1.mem.in_heap(x));
                crate::os::lemma_word_preserved(s1.mem, post.mem, q - HEADER_SIZE);
                crate::os::lemma_word_preserved(s1.mem, post.mem, q - 16);
            } else {
                assert(post.mem.regions@[b.ri as int].base == s1.mem.regions@[b.ri as int].base);
                assert forall|x: int| q - HEADER_SIZE <= x < q implies s1.mem.valid(x)
                    && post.mem.byte_at(x) == s1.mem.byte_at(x) by {
                    s1.mem.lemma_region_byte(b.ri as int, x);
                };
                crate::os::lemma_word_preserved(s1.mem, post.mem, q - HEADER_SIZE);
                crate::os::lemma_word_preserved(s1.mem, post.mem, q - 16);
            }
        }
    };
    assert forall|q: usize, cc: int, k: int|
        #![trigger post.allocs()[q], post.lists()[cc][k]]
        post.allocs().dom().contains(q) && !post.allocs()[q].mm && 1 <= cc < NUMBER_OF_MEM_BLOCKS
            && 0 <= k < post.lists()[cc].len() implies q + post.allocs()[q].size
        <= post.lists()[cc][k] || post.lists()[cc][k] + HEADER_SIZE + 8 * cc <= q
        - HEADER_SIZE by {
        assert(q != p);
        assert(s1.alloc_free_disjoint());
        assert(post.allocs()[q] == s1.allocs()[q]);
        assert(post.lists()[cc] == s1.lists()[cc]);
    };
    assert forall|p1: usize, p2: usize|
        #![trigger post.allocs()[p1], post.allocs()[p2]]
        post.allocs().dom().contains(p1) && post.allocs().dom().contains(p2) && p1 != p2
            && !post.allocs()[p1].mm && !post.allocs()[p2].mm implies p1 + post.allocs()[p1].size
        <= p2 - HEADER_SIZE || p2 + post.allocs()[p2].size <= p1 - HEADER_SIZE by {
        assert(p1 != p && p2 != p);
        assert(s1.alloc_alloc_disjoint());
        assert(post.allocs()[p1] == s1.allocs()[p1]);
        assert(post.allocs()[p2] == s1.allocs()[p2]);
    };
}

/// After mapping a fresh region at `base` and writing the two header words
/// (total length, mapping flag), the new block's header reads back, the rest
/// of the fresh region is still zero, and every previously accessible byte
/// is untouched.
#[verifier::rlimit(100)]
proof fn lemma_mapped_words(
    m0: Memory,
    m_fresh: Memory,
    m_one: Memory,
    m2: Memory,
    base: int,
    total: usize,
    req: int,
)
    requires
        m0.wf(),
        m_fresh.wf(),
        m_one.wf(),
        m2.wf(),
        HEADER_SIZE < total,
        req + HEADER_SIZE == total,
        // the fresh mapping
        base == m0.cursor,
        m_fresh.heap@ == m0.heap@,
        m_fresh.regions@.len() == m0.regions@.len() + 1,
        forall|i: int| 0 <= i < m0.regions@.len() ==> m_fresh.regions@[i] == m0.regions@[i],
        m_fresh.regions@.last().base == base,
        m_fresh.regions@.last().live,
        m_fresh.regions@.last().data@.len() == total,
        forall|a: int| m0.valid(a) ==> m_fresh.valid(a) && m_fresh.byte_at(a) == m0.byte_at(a),
        forall|a: int| base <= a < base + total ==> m_fresh.valid(a) && m_fresh.byte_at(a) == 0u8,
        forall|a: int| m_fresh.valid(a) ==> m0.valid(a) || base <= a < base + total,
        // the first header word
        m_one.same_layout(m_fresh),
        forall|a: int| m_one.valid(a) == m_fresh.valid(a),
        word_at(m_one, base) == total as u64,
        forall|a: int| !(base <= a < base + 8) ==> m_one.byte_at(a) == m_fresh.byte_at(a),
        // the second header word
        m2.same_layout(m_one),
        forall|a: int| m2.valid(a) == m_one.valid(a),
        word_at(m2, base + 8) == 1u64,
        forall|a: int| !(base + 8 <= a < base + 16) ==> m2.byte_at(a) == m_one.byte_at(a),
    ensures
        word_at(m2, base) == total as u64,
        word_at(m2, base + 8) == 1u64,
        forall|a: int| m0.valid(a) ==> m2.valid(a) && m2.byte_at(a) == m0.byte_at(a),
        forall|a: int| base + HEADER_SIZE <= a < base + HEADER_SIZE + req ==> m2.byte_at(a) == 0u8,
        forall|a: int| base <= a < base + total ==> m2.valid(a),
        forall|a: int| m2.valid(a) ==> m0.valid(a) || base <= a < base + total,
        m2.heap@.len() == m0.heap@.len(),
        m2.regions@.len() == m0.regions@.len() + 1,
        forall|i: int|
            0 <= i < m0.regions@.len() ==> {
                &&& (#[trigger] m2.regions@[i]).base == m0.regions@[i].base
                &&& m2.regions@[i].live == m0.regions@[i].live
                &&& m2.regions@[i].data@.len() == m0.regions@[i].data@.len()
            },
        m2.regions@.last().base == base,
        m2.regions@.last().live,
        m2.regions@.last().data@.len() == total,
{
    crate::os::lemma_word_preserved(m_one, m2, base);
    assert forall|a: int| m0.valid(a) implies m2.valid(a) && m2.byte_at(a) == m0.byte_at(a) by {
        if m0.in_heap(a) {
            assert(a < m0.brk());
            assert(a < base);
        } else {
            crate::os::lemma_region_find_valid(m0.regions@, a);
            let i = crate::os::region_find(m0.regions@, a);
            assert(a < m0.regions@[i].base + m0.regions@[i].data@.len());
            assert(a < base);
        }
    };
}

/// The full contract of `free`: a null pointer is a no-op; a free-list
/// block goes back to the head of its class's list, touching only its link
/// field; an mmap block's whole region is returned to the OS model and
/// becomes inaccessible.
pub open spec fn free_post(pre: Allocator, post: Allocator, p: usize) -> bool {
    &&& (p == 0 ==> post == pre)
    &&& (p != 0 ==> {
        let b = pre.allocs()[p];
        let c = b.size as int / 8;
        &&& post.allocs() == pre.allocs().remove(p)
        &&& post.initialized == pre.initialized
        &&& (!b.mm ==> {
            &&& post.lists() == pre.lists().update(
                c,
                seq![(p - HEADER_SIZE) as usize] + pre.lists()[c],
            )
            &&& forall|x: int| post.mem.valid(x) == pre.mem.valid(x)
            &&& forall|x: int|
                !(p - 8 <= x < p) ==> post.mem.byte_at(x) == pre.mem.byte_at(x)
            &&& post.mem.same_layout(pre.mem)
        })
        &&& (b.mm ==> {
            &&& post.lists() == pre.lists()
            &&& post.table@ == pre.table@
            &&& forall|x: int|
                pre.mem.valid(x) && !(p - HEADER_SIZE <= x < p - HEADER_SIZE + b.size)
                    ==> post.mem.valid(x) && post.mem.byte_at(x) == pre.mem.byte_at(x)
            &&& forall|x: int| p - HEADER_SIZE <= x < p - HEADER_SIZE + b.size ==> !post.mem.valid(x)
            &&& post.mem.heap@ == pre.mem.heap@
            &&& post.mem.cursor == pre.mem.cursor
        })
    })
}

/// Pushing a freed block back on the head of its class's list (its link
/// field rewritten to the old head) keeps the allocator well formed.
#[verifier::rlimit(100)]
proof fn lemma_free_small_finish(pre: Allocator, post: Allocator, p: usize)
    requires
        pre.wf(),
        pre.allocs().dom().contains(p),
        !pre.allocs()[p].mm,
        post.initialized == pre.initialized,
        post.alloc_map@ == pre.alloc_map@.remove(p),
        post.free_lists@ == pre.lists().update(
            pre.allocs()[p].size as int / 8,
            seq![(p - HEADER_SIZE) as usize] + pre.lists()[pre.allocs()[p].size as int / 8],
        ),
        post.table@ == pre.table@.update(
            pre.allocs()[p].size as int / 8,
            (p - HEADER_SIZE) as usize,
        ),
        post.mem.wf(),
        post.mem.same_layout(pre.mem),
        forall|x: int| post.mem.valid(x) == pre.mem.valid(x),
        forall|x: int| !(p - 8 <= x < p) ==> post.mem.byte_at(x) == pre.mem.byte_at(x),
        word_at(post.mem, p as int - 8) == (if pre.lists()[pre.allocs()[p].size as int / 8].len()
            == 0 {
            0int
        } else {
            pre.lists()[pre.allocs()[p].size as int / 8][0] as int
        }),
    ensures
        post.wf(),
{
    let b = pre.allocs()[p];
    let s = b.size;
    let c = s as int / 8;
    let a = (p - HEADER_SIZE) as usize;
    assert(pre.alloc_ok(p));
    assert(8 * c == s) by {
        lemma_fundamental_div_mod(s as int, 8);
    }
    assert(1 <= c < NUMBER_OF_MEM_BLOCKS);
    assert(pre.is_initialized()) by {
        if !pre.is_initialized() {
            assert(pre.allocs() == Map::<usize, Block>::empty());
        }
    }
    assert(word_at(post.mem, a as int) == s) by {
        crate::os::lemma_word_preserved(pre.mem, post.mem, a as int);
    }
    assert(word_at(post.mem, a as int + 8) == 0) by {
        crate::os::lemma_word_preserved(pre.mem, post.mem, a as int + 8);
    }
    assert forall|cc: int| 1 <= cc < NUMBER_OF_MEM_BLOCKS implies post.class_ok(cc) by {
        assert(pre.class_ok(cc));
        if cc == c {
            assert(post.lists()[cc] == seq![a] + pre.lists()[c]);
            assert(post.lists()[cc][0] == a);
            assert(post.table@[cc] == a);
            assert forall|k: int| 0 <= k < post.lists()[cc].len() implies post.free_block_ok(
                cc,
                k,
            ) by {
                if k == 0 {
                    if pre.lists()[c].len() > 0 {
                        assert(post.lists()[cc][1] == pre.lists()[c][0]);
                    }
                } else {
                    assert(pre.free_block_ok(cc, k - 1));
                    assert(post.lists()[cc][k] == pre.lists()[cc][k - 1]);
                    let aa = post.lists()[cc][k] as int;
                    assert(pre.alloc_free_disjoint());
                    assert(p + s <= aa || aa + HEADER_SIZE + 8 * cc <= p - HEADER_SIZE);
                    crate::os::lemma_word_preserved(pre.mem, post.mem, aa);
                    crate::os::lemma_word_preserved(pre.mem, post.mem, aa + 8);
                    crate::os::lemma_word_preserved(pre.mem, post.mem, aa + 16);
                    if k + 1 < post.lists()[cc].len() {
                        assert(post.lists()[cc][k + 1] == pre.lists()[cc][k]);
                    }
                }
            };
        } else {
            assert(post.lists()[cc] == pre.lists()[cc]);
            assert(post.table@[cc] == pre.table@[cc]);
            assert forall|k: int| 0 <= k < post.lists()[cc].len() implies post.free_block_ok(
                cc,
                k,
            ) by {
                assert(pre.free_block_ok(cc, k));
                let aa = post.lists()[cc][k] as int;
                assert(pre.alloc_free_disjoint());
                assert(p + s <= aa || aa + HEADER_SIZE + 8 * cc <= p - HEADER_SIZE);
                crate::os::lemma_word_preserved(pre.mem, post.mem, aa);
                crate::os::lemma_word_preserved(pre.mem, post.mem, aa + 8);
                crate::os::lemma_word_preserved(pre.mem, post.mem, aa + 16);
            };
        }
    };
    assert forall|c1: int, k1: int, c2: int, k2: int|
        #![trigger post.lists()[c1][k1], post.lists()[c2][k2]]
        1 <= c1 < NUMBER_OF_MEM_BLOCKS && 0 <= k1 < post.lists()[c1].len() && 1 <= c2
            < NUMBER_OF_MEM_BLOCKS && 0 <= k2 < post.lists()[c2].len() && !(c1 == c2 && k1
            == k2) implies post.lists()[c1][k1] + HEADER_SIZE + 8 * c1 <= post.lists()[c2][k2]
        || post.lists()[c2][k2] + HEADER_SIZE + 8 * c2 <= post.lists()[c1][k1] by {
        assert(pre.free_disjoint());
        assert(pre.alloc_free_disjoint());
        let new1 = c1 == c && k1 == 0;
        let new2 = c2 == c && k2 == 0;
        if new1 && !new2 {
            let k2p: int = if c2 == c {
                k2 - 1
            } else {
                k2
            };
            assert(post.lists()[c2][k2] == pre.lists()[c2][k2p]);
            assert(post.lists()[c1][k1] == a);
        } else if new2 && !new1 {
            let k1p: int = if c1 == c {
                k1 - 1
            } else {
                k1
            };
            assert(post.lists()[c1][k1] == pre.lists()[c1][k1p]);
            assert(post.lists()[c2][k2] == a);
        } else if !new1 && !new2 {
            let k1p: int = if c1 == c {
                k1 - 1
            } else {
                k1
            };
            let k2p: int = if c2 == c {
                k2 - 1
            } else {
                k2
            };
            assert(post.lists()[c1][k1] == pre.lists()[c1][k1p]);
            assert(post.lists()[c2][k2] == pre.lists()[c2][k2p]);
        }
    };
    assert forall|q: usize| post.allocs().dom().contains(q) implies post.alloc_ok(q) by {
        assert(pre.alloc_ok(q));
        assert(post.allocs()[q] == pre.allocs()[q]);
        let bq = pre.allocs()[q];
        if !bq.mm {
            assert(pre.alloc_alloc_disjoint());
            assert(q + bq.size <= p - HEADER_SIZE || p + s <= q - HEADER_SIZE);
            crate::os::lemma_word_preserved(pre.mem, post.mem, q - HEADER_SIZE);
            crate::os::lemma_word_preserved(pre.mem, post.mem, q - 16);
        } else {
            assert(pre.mem.regions@[bq.ri as int].base >= pre.mem.mmap_base());
            assert(p <= pre.mem.brk());
            crate::os::lemma_word_preserved(pre.mem, post.mem, q - HEADER_SIZE);
            crate::os::lemma_word_preserved(pre.mem, post.mem, q - 16);
        }
    };
    assert forall|q: usize, cc: int, k: int|
        #![trigger post.allocs()[q], post.lists()[cc][k]]
        post.allocs().dom().contains(q) && !post.allocs()[q].mm && 1 <= cc < NUMBER_OF_MEM_BLOCKS
            && 0 <= k < post.lists()[cc].len() implies q + post.allocs()[q].size
        <= post.lists()[cc][k] || post.lists()[cc][k] + HEADER_SIZE + 8 * cc <= q
        - HEADER_SIZE by {
        assert(pre.alloc_free_disjoint());
        assert(pre.alloc_alloc_disjoint());
        assert(post.allocs()[q] == pre.allocs()[q]);
        if cc == c && k == 0 {
            assert(post.lists()[cc][k] == a);
            assert(q + pre.allocs()[q].size <= p - HEADER_SIZE || p + s <= q - HEADER_SIZE);
        } else {
            let kp: int = if cc == c {
                k - 1
            } else {
                k
            };
            assert(post.lists()[cc][k] == pre.lists()[cc][kp]);
        }
    };
    assert forall|p1: usize, p2: usize|
        #![trigger post.allocs()[p1], post.allocs()[p2]]
        post.allocs().dom().contains(p1) && post.allocs().dom().contains(p2) && p1 != p2
            && !post.allocs()[p1].mm && !post.allocs()[p2].mm implies p1 + post.allocs()[p1].size
        <= p2 - HEADER_SIZE || p2 + post.allocs()[p2].size <= p1 - HEADER_SIZE by {
        assert(pre.alloc_alloc_disjoint());
        assert(post.allocs()[p1] == pre.allocs()[p1]);
        assert(post.allocs()[p2] == pre.allocs()[p2]);
    };
}

/// Unmapping a freed mmap block's region keeps the allocator well formed:
/// the heap, every free list and every other allocation are untouched.
#[verifier::rlimit(100)]
proof fn lemma_free_mapped_finish(pre: Allocator, post: Allocator, p: usize)
    requires
        pre.wf(),
        pre.allocs().dom().contains(p),
        pre.allocs()[p].mm,
        post.initialized == pre.initialized,
        post.alloc_map@ == pre.alloc_map@.remove(p),
        post.free_lists@ == pre.free_lists@,
        post.table@ == pre.table@,
        post.mem.wf(),
        post.mem.heap@ == pre.mem.heap@,
        post.mem.cursor == pre.mem.cursor,
        post.mem.map_limit == pre.mem.map_limit,
        post.mem.heap_cap == pre.mem.heap_cap,
        post.mem.regions@.len() == pre.mem.regions@.len(),
        forall|i: int|
            0 <= i < pre.mem.regions@.len() ==> {
                &&& (#[trigger] post.mem.regions@[i]).base == pre.mem.regions@[i].base
                &&& post.mem.regions@[i].data@ == pre.mem.regions@[i].data@
                &&& post.mem.regions@[i].live == (pre.mem.regions@[i].live
                    && pre.mem.regions@[i].base != p - HEADER_SIZE)
            },
        forall|x: int|
            pre.mem.valid(x) && !(p - HEADER_SIZE <= x < p - HEADER_SIZE
                + pre.allocs()[p].size) ==> post.mem.valid(x) && post.mem.byte_at(x)
                == pre.mem.byte_at(x),
    ensures
        post.wf(),
{
    let b = pre.allocs()[p];
    assert(pre.alloc_ok(p));
    assert forall|cc: int| 1 <= cc < NUMBER_OF_MEM_BLOCKS implies post.class_ok(cc) by {
        assert(pre.class_ok(cc));
        assert forall|k: int| 0 <= k < post.lists()[cc].len() implies post.free_block_ok(
            cc,
            k,
        ) by {
            assert(pre.free_block_ok(cc, k));
            let aa = post.lists()[cc][k] as int;
            assert(pre.mem.regions@[b.ri as int].base >= pre.mem.mmap_base());
            assert(forall|x: int|
                aa <= x < aa + HEADER_SIZE ==> pre.mem.in_heap(x) && pre.mem.valid(x) && !(p
                    - HEADER_SIZE <= x < p - HEADER_SIZE + b.size));
            crate::os::lemma_word_preserved(pre.mem, post.mem, aa);
            crate::os::lemma_word_preserved(pre.mem, post.mem, aa + 8);
            crate::os::lemma_word_preserved(pre.mem, post.mem, aa + 16);
        };
    };
    assert forall|c1: int, k1: int, c2: int, k2: int|
        #![trigger post.lists()[c1][k1], post.lists()[c2][k2]]
        1 <= c1 < NUMBER_OF_MEM_BLOCKS && 0 <= k1 < post.lists()[c1].len() && 1 <= c2
            < NUMBER_OF_MEM_BLOCKS && 0 <= k2 < post.lists()[c2].len() && !(c1 == c2 && k1
            == k2) implies post.lists()[c1][k1] + HEADER_SIZE + 8 * c1 <= post.lists()[c2][k2]
        || post.lists()[c2][k2] + HEADER_SIZE + 8 * c2 <= post.lists()[c1][k1] by {
        assert(pre.free_disjoint());
        assert(post.lists()[c1] == pre.lists()[c1]);
        assert(post.lists()[c2] == pre.lists()[c2]);
    };
    assert forall|q: usize| post.allocs().dom().contains(q) implies post.alloc_ok(q) by {
        assert(pre.alloc_ok(q));
        assert(post.allocs()[q] == pre.allocs()[q]);
        let bq = pre.allocs()[q];
        if !bq.mm {
            assert(pre.mem.regions@[b.ri as int].base >= pre.mem.mmap_base());
            assert(forall|x: int|
                q - HEADER_SIZE <= x < q ==> pre.mem.in_heap(x) && pre.mem.valid(x) && !(p
                    - HEADER_SIZE <= x < p - HEADER_SIZE + b.size));
            crate::os::lemma_word_preserved(pre.mem, post.mem, q - HEADER_SIZE);
            crate::os::lemma_word_preserved(pre.mem, post.mem, q - 16);
        } else {
            // distinct mmap blocks sit in distinct, disjoint regions
            assert(bq.ri != b.ri);
            let i = bq.ri as int;
            let j = b.ri as int;
            assert(pre.mem.regions@[i].base != pre.mem.regions@[j].base) by {
                if i < j {
                    assert(pre.mem.regions@[i].base + pre.mem.regions@[i].data@.len()
                        <= pre.mem.regions@[j].base);
                } else {
                    assert(pre.mem.regions@[j].base + pre.mem.regions@[j].data@.len()
                        <= pre.mem.regions@[i].base);
                }
            }
            assert(post.mem.regions@[i].live);
            assert forall|x: int| q - HEADER_SIZE <= x < q implies pre.mem.valid(x)
                && post.mem.byte_at(x) == pre.mem.byte_at(x) by {
                pre.mem.lemma_region_byte(i, x);
                if i < j {
                    assert(pre.mem.regions@[i].base + pre.mem.regions@[i].data@.len()
                        <= pre.mem.regions@[j].base);
                } else {
                    assert(pre.mem.regions@[j].base + pre.mem.regions@[j].data@.len()
                        <= pre.mem.regions@[i].base);
                }
            };
            crate::os::lemma_word_preserved(pre.mem, post.mem, q - HEADER_SIZE);
            crate::os::lemma_word_preserved(pre.mem, post.mem, q - 16);
        }
    };
    assert forall|q: usize, cc: int, k: int|
        #![trigger post.allocs()[q], post.lists()[cc][k]]
        post.allocs().dom().contains(q) && !post.allocs()[q].mm && 1 <= cc < NUMBER_OF_MEM_BLOCKS
            && 0 <= k < post.lists()[cc].len() implies q + post.allocs()[q].size
        <= post.lists()[cc][k] || post.lists()[cc][k] + HEADER_SIZE + 8 * cc <= q
        - HEADER_SIZE by {
        assert(pre.alloc_free_disjoint());
        assert(post.allocs()[q] == pre.allocs()[q]);
        assert(post.lists()[cc] == pre.lists()[cc]);
    };
    assert forall|p1: usize, p2: usize|
        #![trigger post.allocs()[p1], post.allocs()[p2]]
        post.allocs().dom().contains(p1) && post.allocs().dom().contains(p2) && p1 != p2
            && !post.allocs()[p1].mm && !post.allocs()[p2].mm implies p1 + post.allocs()[p1].size
        <= p2 - HEADER_SIZE || p2 + post.allocs()[p2].size <= p1 - HEADER_SIZE by {
        assert(pre.alloc_alloc_disjoint());
        assert(post.allocs()[p1] == pre.allocs()[p1]);
        assert(post.allocs()[p2] == pre.allocs()[p2]);
    };
}

/// Two distinct live allocations occupy disjoint address ranges (headers
/// included), whatever their origins.
pub proof fn lemma_alloc_disjoint(s: Allocator, p1: usize, p2: usize)
    requires
        s.wf(),
        s.allocs().dom().contains(p1),
        s.allocs().dom().contains(p2),
        p1 != p2,
    ensures
        p1 - HEADER_SIZE + footprint_len(s.allocs()[p1]) <= p2 - HEADER_SIZE || p2 - HEADER_SIZE
            + footprint_len(s.allocs()[p2]) <= p1 - HEADER_SIZE,
{
    let b1 = s.allocs()[p1];
    let b2 = s.allocs()[p2];
    assert(s.alloc_ok(p1));
    assert(s.alloc_ok(p2));
    if !b1.mm && !b2.mm {
        assert(s.alloc_alloc_disjoint());
    } else if b1.mm && b2.mm {
        let i = b1.ri as int;
        let j = b2.ri as int;
        assert(i != j);
        if i < j {
            assert(s.mem.regions@[i].base + s.mem.regions@[i].data@.len()
                <= s.mem.regions@[j].base);
        } else {
            assert(s.mem.regions@[j].base + s.mem.regions@[j].data@.len()
                <= s.mem.regions@[i].base);
        }
    } else if b1.mm {
        assert(s.mem.regions@[b1.ri as int].base >= s.mem.mmap_base());
        assert(p2 + b2.size <= s.mem.brk());
    } else {
        assert(s.mem.regions@[b2.ri as int].base >= s.mem.mmap_base());
        assert(p1 + b1.size <= s.mem.brk());
    }
}

/// Writing one byte inside a live allocation's payload touches no header
/// and no other block, so the allocator stays well formed.
#[verifier::rlimit(100)]
proof fn lemma_store_payload_finish(pre: Allocator, post: Allocator, p: usize, x: int)
    requires
        pre.wf(),
        pre.allocs().dom().contains(p),
        p <= x < p + payload_len(pre.allocs()[p]),
        post.initialized == pre.initialized,
        post.alloc_map@ == pre.alloc_map@,
        post.free_lists@ == pre.free_lists@,
        post.table@ == pre.table@,
        post.mem.wf(),
        post.mem.same_layout(pre.mem),
        forall|a: int| post.mem.valid(a) == pre.mem.valid(a),
        forall|a: int| a != x ==> post.mem.byte_at(a) == pre.mem.byte_at(a),
    ensures
        post.wf(),
{
    let b = pre.allocs()[p];
    assert(pre.alloc_ok(p));
    assert forall|cc: int| 1 <= cc < NUMBER_OF_MEM_BLOCKS implies post.class_ok(cc) by {
        assert(pre.class_ok(cc));
        assert forall|k: int| 0 <= k < post.lists()[cc].len() implies post.free_block_ok(
            cc,
            k,
        ) by {
            assert(pre.free_block_ok(cc, k));
            let aa = post.lists()[cc][k] as int;
            assert(pre.alloc_free_disjoint());
            if !b.mm {
                assert(p + b.size <= aa || aa + HEADER_SIZE + 8 * cc <= p - HEADER_SIZE);
            } else {
                assert(pre.mem.regions@[b.ri as int].base >= pre.mem.mmap_base());
                assert(aa + HEADER_SIZE + 8 * cc <= pre.mem.brk());
            }
            crate::os::lemma_word_preserved(pre.mem, post.mem, aa);
            crate::os::lemma_word_preserved(pre.mem, post.mem, aa + 8);
            crate::os::lemma_word_preserved(pre.mem, post.mem, aa + 16);
        };
    };
    assert forall|c1: int, k1: int, c2: int, k2: int|
        #![trigger post.lists()[c1][k1], post.lists()[c2][k2]]
        1 <= c1 < NUMBER_OF_MEM_BLOCKS && 0 <= k1 < post.lists()[c1].len() && 1 <= c2
            < NUMBER_OF_MEM_BLOCKS && 0 <= k2 < post.lists()[c2].len() && !(c1 == c2 && k1
            == k2) implies post.lists()[c1][k1] + HEADER_SIZE + 8 * c1 <= post.lists()[c2][k2]
        || post.lists()[c2][k2] + HEADER_SIZE + 8 * c2 <= post.lists()[c1][k1] by {
        assert(pre.free_disjoint());
        assert(post.lists()[c1] == pre.lists()[c1]);
        assert(post.lists()[c2] == pre.lists()[c2]);
    };
    assert forall|q: usize| post.allocs().dom().contains(q) implies post.alloc_ok(q) by {
        assert(pre.alloc_ok(q));
        assert(post.allocs()[q] == pre.allocs()[q]);
        let bq = pre.allocs()[q];
        if q == p {
            // the write lands at or after the payload start, past the header
            assert(x >= p);
            crate::os::lemma_word_preserved(pre.mem, post.mem, q - HEADER_SIZE);
            crate::os::lemma_word_preserved(pre.mem, post.mem, q - 16);
        } else {
            lemma_alloc_disjoint(pre, p, q);
            assert(x < p - HEADER_SIZE + footprint_len(b));
            crate::os::lemma_word_preserved(pre.mem, post.mem, q - HEADER_SIZE);
            crate::os::lemma_word_preserved(pre.mem, post.mem, q - 16);
        }
    };
    assert forall|q: usize, cc: int, k: int|
        #![trigger post.allocs()[q], post.lists()[cc][k]]
        post.allocs().dom().contains(q) && !post.allocs()[q].mm && 1 <= cc < NUMBER_OF_MEM_BLOCKS
            && 0 <= k < post.lists()[cc].len() implies q + post.allocs()[q].size
        <= post.lists()[cc][k] || post.lists()[cc][k] + HEADER_SIZE + 8 * cc <= q
        - HEADER_SIZE by {
        assert(pre.alloc_free_disjoint());
        assert(post.allocs()[q] == pre.allocs()[q]);
        assert(post.lists()[cc] == pre.lists()[cc]);
    };
    assert forall|p1: usize, p2: usize|
        #![trigger post.allocs()[p1], post.allocs()[p2]]
        post.allocs().dom().contains(p1) && post.allocs().dom().contains(p2) && p1 != p2
            && !post.allocs()[p1].mm && !post.allocs()[p2].mm implies p1 + post.allocs()[p1].size
        <= p2 - HEADER_SIZE || p2 + post.allocs()[p2].size <= p1 - HEADER_SIZE by {
        assert(pre.alloc_alloc_disjoint());
        assert(post.allocs()[p1] == pre.allocs()[p1]);
        assert(post.allocs()[p2] == pre.allocs()[p2]);
    };
}

/// Setting the idempotent bootstrap guard alone does not disturb the
/// allocator's invariant.
proof fn lemma_set_initialized(pre: Allocator, post: Allocator)
    requires
        pre.wf(),
        post.mem == pre.mem,
        post.table@ == pre.table@,
        post.free_lists@ == pre.free_lists@,
        post.alloc_map@ == pre.alloc_map@,
        post.initialized,
    ensures
        post.wf(),
{
    assert forall|cc: int| 1 <= cc < NUMBER_OF_MEM_BLOCKS implies post.class_ok(cc) by {
        assert(pre.class_ok(cc));
        assert forall|k: int| 0 <= k < post.lists()[cc].len() implies post.free_block_ok(
            cc,
            k,
        ) by {
            assert(pre.free_block_ok(cc, k));
        };
    };
    assert forall|c1: int, k1: int, c2: int, k2: int|
        #![trigger post.lists()[c1][k1], post.lists()[c2][k2]]
        1 <= c1 < NUMBER_OF_MEM_BLOCKS && 0 <= k1 < post.lists()[c1].len() && 1 <= c2
            < NUMBER_OF_MEM_BLOCKS && 0 <= k2 < post.lists()[c2].len() && !(c1 == c2 && k1
            == k2) implies post.lists()[c1][k1] + HEADER_SIZE + 8 * c1 <= post.lists()[c2][k2]
        || post.lists()[c2][k2] + HEADER_SIZE + 8 * c2 <= post.lists()[c1][k1] by {
        assert(pre.free_disjoint());
        assert(post.lists()[c1] == pre.lists()[c1]);
        assert(post.lists()[c2] == pre.lists()[c2]);
    };
    assert forall|p: usize| post.allocs().dom().contains(p) implies post.alloc_ok(p) by {
        assert(pre.alloc_ok(p));
        assert(post.allocs()[p] == pre.allocs()[p]);
    };
    assert forall|p: usize, cc: int, k: int|
        #![trigger post.allocs()[p], post.lists()[cc][k]]
        post.allocs().dom().contains(p) && !post.allocs()[p].mm && 1 <= cc < NUMBER_OF_MEM_BLOCKS
            && 0 <= k < post.lists()[cc].len() implies p + post.allocs()[p].size
        <= post.lists()[cc][k] || post.lists()[cc][k] + HEADER_SIZE + 8 * cc <= p
        - HEADER_SIZE by {
        assert(pre.alloc_free_disjoint());
        assert(post.allocs()[p] == pre.allocs()[p]);
        assert(post.lists()[cc] == pre.lists()[cc]);
    };
    assert forall|p1: usize, p2: usize|
        #![trigger post.allocs()[p1], post.allocs()[p2]]
        post.allocs().dom().contains(p1) && post.allocs().dom().contains(p2) && p1 != p2
            && !post.allocs()[p1].mm && !post.allocs()[p2].mm implies p1 + post.allocs()[p1].size
        <= p2 - HEADER_SIZE || p2 + post.allocs()[p2].size <= p1 - HEADER_SIZE by {
        assert(pre.alloc_alloc_disjoint());
        assert(post.allocs()[p1] == pre.allocs()[p1]);
        assert(post.allocs()[p2] == pre.allocs()[p2]);
    };
}

/// Growing the linear heap (without touching its old bytes, the table, the
/// lists or the allocations) keeps the allocator well formed, and every
/// block stays below the old break.
#[verifier::rlimit(100)]
proof fn lemma_grow_preserves(pre: Allocator, post: Allocator)
    requires
        pre.wf(),
        post.table@ == pre.table@,
        post.free_lists@ == pre.free_lists@,
        post.alloc_map@ == pre.alloc_map@,
        post.initialized == pre.initialized,
        post.initialized,
        post.mem.wf(),
        post.mem.regions@ == pre.mem.regions@,
        post.mem.cursor == pre.mem.cursor,
        post.mem.map_limit == pre.mem.map_limit,
        post.mem.heap_cap == pre.mem.heap_cap,
        post.mem.heap@.len() >= pre.mem.heap@.len(),
        forall|i: int| 0 <= i < pre.mem.heap@.len() ==> post.mem.heap@[i] == pre.mem.heap@[i],
    ensures
        post.wf(),
        post.blocks_below(pre.mem.brk()),
        forall|a: int|
            pre.mem.valid(a) ==> post.mem.valid(a) && post.mem.byte_at(a) == pre.mem.byte_at(a),
{
    assert forall|a: int| pre.mem.valid(a) implies post.mem.valid(a) && post.mem.byte_at(a)
        == pre.mem.byte_at(a) by {
        if pre.mem.in_heap(a) {
        } else {
            crate::os::lemma_region_find_valid(pre.mem.regions@, a);
            let i = crate::os::region_find(pre.mem.regions@, a);
            assert(pre.mem.regions@[i].base >= pre.mem.mmap_base());
            assert(!post.mem.in_heap(a));
        }
    };
    assert forall|cc: int| 1 <= cc < NUMBER_OF_MEM_BLOCKS implies post.class_ok(cc) by {
        assert(pre.class_ok(cc));
        assert(post.lists()[cc] == pre.lists()[cc]);
        assert(post.table@[cc] == pre.table@[cc]);
        assert forall|k: int| 0 <= k < post.lists()[cc].len() implies post.free_block_ok(
            cc,
            k,
        ) by {
            assert(pre.free_block_ok(cc, k));
            let a = post.lists()[cc][k] as int;
            assert(forall|x: int| a <= x < a + HEADER_SIZE ==> pre.mem.in_heap(x));
            crate::os::lemma_word_preserved(pre.mem, post.mem, a);
            crate::os::lemma_word_preserved(pre.mem, post.mem, a + 8);
            crate::os::lemma_word_preserved(pre.mem, post.mem, a + 16);
        };
    };
    assert forall|c1: int, k1: int, c2: int, k2: int|
        #![trigger post.lists()[c1][k1], post.lists()[c2][k2]]
        1 <= c1 < NUMBER_OF_MEM_BLOCKS && 0 <= k1 < post.lists()[c1].len() && 1 <= c2
            < NUMBER_OF_MEM_BLOCKS && 0 <= k2 < post.lists()[c2].len() && !(c1 == c2 && k1
            == k2) implies post.lists()[c1][k1] + HEADER_SIZE + 8 * c1 <= post.lists()[c2][k2]
        || post.lists()[c2][k2] + HEADER_SIZE + 8 * c2 <= post.lists()[c1][k1] by {
        assert(pre.free_disjoint());
        assert(post.lists()[c1] == pre.lists()[c1]);
        assert(post.lists()[c2] == pre.lists()[c2]);
    };
    assert forall|p: usize| post.allocs().dom().contains(p) implies post.alloc_ok(p) by {
        assert(pre.alloc_ok(p));
        assert(post.allocs()[p] == pre.allocs()[p]);
        let b = pre.allocs()[p];
        if !b.mm {
            assert(forall|x: int| p - HEADER_SIZE <= x < p ==> pre.mem.in_heap(x));
            crate::os::lemma_word_preserved(pre.mem, post.mem, p - HEADER_SIZE);
            crate::os::lemma_word_preserved(pre.mem, post.mem, p - 16);
        } else {
            let ri = b.ri as int;
            assert forall|x: int| p - HEADER_SIZE <= x < p implies pre.mem.valid(x)
                && post.mem.byte_at(x) == pre.mem.byte_at(x) by {
                pre.mem.lemma_region_byte(ri, x);
            };
            crate::os::lemma_word_preserved(pre.mem, post.mem, p - HEADER_SIZE);
            crate::os::lemma_word_preserved(pre.mem, post.mem, p - 16);
        }
    };
    assert forall|p: usize, cc: int, k: int|
        #![trigger post.allocs()[p], post.lists()[cc][k]]
        post.allocs().dom().contains(p) && !post.allocs()[p].mm && 1 <= cc < NUMBER_OF_MEM_BLOCKS
            && 0 <= k < post.lists()[cc].len() implies p + post.allocs()[p].size
        <= post.lists()[cc][k] || post.lists()[cc][k] + HEADER_SIZE + 8 * cc <= p
        - HEADER_SIZE by {
        assert(pre.alloc_free_disjoint());
        assert(post.allocs()[p] == pre.allocs()[p]);
        assert(post.lists()[cc] == pre.lists()[cc]);
    };
    assert forall|p1: usize, p2: usize|
        #![trigger post.allocs()[p1], post.allocs()[p2]]
        post.allocs().dom().contains(p1) && post.allocs().dom().contains(p2) && p1 != p2
            && !post.allocs()[p1].mm && !post.allocs()[p2].mm implies p1 + post.allocs()[p1].size
        <= p2 - HEADER_SIZE || p2 + post.allocs()[p2].size <= p1 - HEADER_SIZE by {
        assert(pre.alloc_alloc_disjoint());
        assert(post.allocs()[p1] == pre.allocs()[p1]);
        assert(post.allocs()[p2] == pre.allocs()[p2]);
    };
    assert forall|cc: int, k: int|
        #![trigger post.lists()[cc][k]]
        1 <= cc < NUMBER_OF_MEM_BLOCKS && 0 <= k < post.lists()[cc].len() implies
        post.lists()[cc][k] + HEADER_SIZE + 8 * cc <= pre.mem.brk() by {
        assert(post.lists()[cc] == pre.lists()[cc]);
        assert(pre.class_ok(cc));
        assert(pre.free_block_ok(cc, k));
    };
    assert forall|p: usize|
        post.allocs().dom().contains(p) && !(#[trigger] post.allocs()[p]).mm implies p
        + post.allocs()[p].size <= pre.mem.brk() by {
        assert(pre.alloc_ok(p));
        assert(post.allocs()[p] == pre.allocs()[p]);
    };
}

impl Allocator {
    /// Partition the freshly granted heap range starting at `start` into
    /// `num` header-tagged blocks of class `c`, linked in memory order, and
    /// install the batch in front of the class's free list.  Mirrors the
    /// bootstrap partitioning logic for a single class.
    #[verifier::rlimit(100)]
    fn carve(&mut self, c: usize, num: usize, start: usize)
        requires
            old(self).wf(),
            old(self).is_initialized(),
            1 <= c < NUMBER_OF_MEM_BLOCKS,
            1 <= num <= 64,
            HEAP_BASE <= start,
            start + num * (8 * c + HEADER_SIZE) <= old(self).brk(),
            old(self).blocks_below(start as int),
        ensures
            final(self).wf(),
            final(self).is_initialized(),
            final(self).allocs() == old(self).allocs(),
            final(self).lists() == old(self).lists().update(
                c as int,
                Seq::new(
                    num as nat,
                    |j: int| slot(start as int, 8 * c + HEADER_SIZE, j) as usize,
                ) + old(self).lists()[c as int],
            ),
            final(self).table@ == old(self).table@.update(c as int, start),
            final(self).mem.same_layout(old(self).mem),
            final(self).mem.regions@ == old(self).mem.regions@,
            forall|a: int| final(self).mem.valid(a) == old(self).mem.valid(a),
            forall|x: int|
                !(start <= x < start + num * (8 * c + HEADER_SIZE)) ==> final(self).mem.byte_at(x)
                    == old(self).mem.byte_at(x),
            final(self).blocks_below(start + num * (8 * c + HEADER_SIZE)),
    {
        let bs = 8 * c + HEADER_SIZE;
        let old_head = self.table[c];
        let ghost pre = *self;
        let mut pointer = start;
        let mut j: usize = 0;
        while j < num
            invariant
                pre == *old(self),
                pre.wf(),
                pre.is_initialized(),
                1 <= c < NUMBER_OF_MEM_BLOCKS,
                1 <= num <= 64,
                HEAP_BASE <= start,
                bs == 8 * c + HEADER_SIZE,
                old_head == pre.table@[c as int],
                start + num * bs <= pre.brk(),
                j <= num,
                pointer == slot(start as int, bs as int, j as int),
                self.table@ == pre.table@,
                self.initialized == pre.initialized,
                self.free_lists == pre.free_lists,
                self.alloc_map == pre.alloc_map,
                self.mem.wf(),
                self.mem.same_layout(pre.mem),
                self.mem.regions@ == pre.mem.regions@,
                forall|a: int| self.mem.valid(a) == pre.mem.valid(a),
                forall|x: int|
                    !(start <= x < slot(start as int, bs as int, j as int)) ==> self.mem.byte_at(x)
                        == pre.mem.byte_at(x),
                forall|jj: int|
                    0 <= jj < j ==> {
                        let a = #[trigger] slot(start as int, bs as int, jj);
                        &&& word_at(self.mem, a) == 8 * c
                        &&& word_at(self.mem, a + 8) == 0
                        &&& word_at(self.mem, a + 16) == (if jj + 1 < num {
                            a + bs
                        } else {
                            old_head as int
                        })
                    },
            decreases num - j,
        {
            proof {
                lemma_mul_inequality(j as int + 1, num as int, bs as int);
                assert((j as int + 1) * bs == j as int * bs + bs) by (nonlinear_arith);
                assert(pointer + bs <= start + num * bs);
                vstd::arithmetic::mul::lemma_mul_nonnegative(j as int, bs as int);
            }
            let ghost before = self.mem;
            assert(forall|x: int|
                pointer <= x < pointer + HEADER_SIZE ==> self.mem.in_heap(x) && self.mem.valid(x));
            self.mem.store_word(pointer, (8 * c) as u64);
            self.mem.store_word(pointer + 8, 0u64);
            let next: usize = if j + 1 < num {
                pointer + bs
            } else {
                old_head
            };
            self.mem.store_word(pointer + 16, next as u64);
            proof {
                assert forall|jj: int| 0 <= jj < j + 1 implies {
                    let a = #[trigger] slot(start as int, bs as int, jj);
                    &&& word_at(self.mem, a) == 8 * c
                    &&& word_at(self.mem, a + 8) == 0
                    &&& word_at(self.mem, a + 16) == (if jj + 1 < num {
                        a + bs
                    } else {
                        old_head as int
                    })
                } by {
                    let a = slot(start as int, bs as int, jj);
                    if jj < j {
                        lemma_mul_inequality(jj + 1, j as int, bs as int);
                        assert((jj + 1) * bs == jj * bs + bs) by (nonlinear_arith);
                        assert(a + HEADER_SIZE <= pointer);
                        crate::os::lemma_word_preserved(before, self.mem, a);
                        crate::os::lemma_word_preserved(before, self.mem, a + 8);
                        crate::os::lemma_word_preserved(before, self.mem, a + 16);
                    } else {
                        assert(a == pointer);
                    }
                };
            }
            pointer = pointer + bs;
            j = j + 1;
        }
        self.table[c] = start;
        let ghost carved = Seq::new(
            num as nat,
            |jj: int| slot(start as int, bs as int, jj) as usize,
        );
        let ghost newlists = pre.lists().update(c as int, carved + pre.lists()[c as int]);
        self.free_lists = Ghost(newlists);
        proof {
            lemma_carve_finish(pre, *self, c as int, num as int, start as int, old_head);
        }
    }

    /// Grow size class `size / 8` by one batch: extend the linear heap by a
    /// fixed byte budget's worth of blocks and slice it, exactly as the
    /// bootstrap does for a single class.  Fails (with no other effect) when
    /// the break cannot be moved, returning the failing break result.
    fn add_list(&mut self, size: usize) -> (r: Result<usize, usize>)
        requires
            old(self).wf(),
            old(self).is_initialized(),
            8 <= size <= MAX_HEAP_SIZE,
            size % 8 == 0,
        ensures
            final(self).wf(),
            final(self).is_initialized(),
            r.is_ok() <==> old(self).heap_room(class_batch_bytes(size as int / 8)),
            r.is_err() ==> *final(self) == *old(self),
            r.is_ok() ==> {
                let c = size as int / 8;
                &&& r->Ok_0 == old(self).brk()
                &&& final(self).mem.heap@.len() == old(self).mem.heap@.len()
                    + class_batch_bytes(c)
                &&& final(self).allocs() == old(self).allocs()
                &&& final(self).lists() == old(self).lists().update(
                    c,
                    Seq::new(
                        class_batch_count(c) as nat,
                        |j: int| slot(old(self).brk(), 8 * c + HEADER_SIZE, j) as usize,
                    ) + old(self).lists()[c],
                )
                &&& final(self).mem.regions@ == old(self).mem.regions@
                &&& final(self).mem.cursor == old(self).mem.cursor
                &&& final(self).mem.map_limit == old(self).mem.map_limit
                &&& final(self).mem.heap_cap == old(self).mem.heap_cap
                &&& final(self).table@ == old(self).table@.update(c, (old(self).brk() as usize))
                &&& forall|a: int|
                    old(self).mem.valid(a) ==> final(self).mem.valid(a)
                        && final(self).mem.byte_at(a) == old(self).mem.byte_at(a)
            },
    {
        let c = size / MEMORY_ALIGNMENT;
        let num = ADD_LIST_SIZE / size;
        proof {
            lemma_fundamental_div_mod(size as int, 8);
            assert(8 * (size as int / 8) == size);
            assert(num == class_batch_count(c as int));
            lemma_batch_bounds(c as int);
        }
        let bytes = num * (size + HEADER_SIZE);
        proof {
            assert(bytes == class_batch_bytes(c as int));
        }
        let ghost pre = *self;
        let cur = self.mem.r_sbrk(0);
        let got = self.mem.r_sbrk(bytes);
        if got != cur {
            return Err(got);
        }
        proof {
            lemma_grow_preserves(pre, *self);
        }
        let ghost mid = *self;
        self.carve(c, num, cur);
        proof {
            assert(self.lists() =~~= pre.lists().update(
                c as int,
                Seq::new(
                    class_batch_count(c as int) as nat,
                    |j: int| slot(pre.brk(), 8 * (c as int) + HEADER_SIZE, j) as usize,
                ) + pre.lists()[c as int],
            ));
            assert forall|a: int| pre.mem.valid(a) implies self.mem.valid(a) && self.mem.byte_at(a)
                == pre.mem.byte_at(a) by {
                if pre.mem.in_heap(a) {
                    assert(a < cur);
                } else {
                    crate::os::lemma_region_find_valid(pre.mem.regions@, a);
                    let i = crate::os::region_find(pre.mem.regions@, a);
                    assert(pre.mem.regions@[i].base >= pre.mem.mmap_base());
                    assert(a >= mid.mem.brk());
                }
            };
        }
        Ok(cur)
    }

    /// One-time bootstrap: request a single contiguous heap extension sized
    /// to hold one batch of blocks for every size class, then partition it
    /// class by class.  Fails (leaving only the idempotent guard set) when
    /// the break cannot be moved by the full amount.
    fn init_malloc(&mut self) -> (ok: bool)
        requires
            old(self).wf(),
            !old(self).is_initialized(),
        ensures
            final(self).wf(),
            final(self).is_initialized(),
            ok <==> init_total_bytes() <= old(self).mem.heap_cap,
            final(self).allocs() == old(self).allocs(),
            final(self).mem.regions@ == old(self).mem.regions@,
            final(self).mem.cursor == old(self).mem.cursor,
            final(self).mem.map_limit == old(self).mem.map_limit,
            final(self).mem.heap_cap == old(self).mem.heap_cap,
            !ok ==> final(self).mem == old(self).mem && final(self).lists() == old(self).lists()
                && final(self).table@ == old(self).table@,
            ok ==> final(self).mem.heap@.len() == init_total_bytes(),
            ok ==> forall|c: int|
                1 <= c < NUMBER_OF_MEM_BLOCKS ==> (#[trigger] final(self).lists()[c]).len()
                    == class_batch_count(c),
    {
        self.initialized = true;
        proof {
            lemma_set_initialized(*old(self), *self);
        }
        let ghost pre = *self;
        let mut total: usize = 0;
        let mut c: usize = 1;
        while c < NUMBER_OF_MEM_BLOCKS
            invariant
                1 <= c <= NUMBER_OF_MEM_BLOCKS,
                total == init_bytes_prefix(c as int),
                total <= 2048 * (c - 1),
                *self == pre,
            decreases NUMBER_OF_MEM_BLOCKS - c,
        {
            proof {
                lemma_batch_bounds(c as int);
                lemma_init_prefix_nonneg(c as int + 1);
            }
            let num = ADD_LIST_SIZE / (c * 8);
            proof {
                assert(num == class_batch_count(c as int));
            }
            total = total + num * (c * 8 + HEADER_SIZE);
            proof {
                assert(num * (c * 8 + HEADER_SIZE) == class_batch_bytes(c as int));
            }
            c = c + 1;
        }
        proof {
            assert(total == init_total_bytes());
            assert(pre.mem.heap@.len() == 0);
        }
        let cur = self.mem.r_sbrk(0);
        let got = self.mem.r_sbrk(total);
        if got != cur {
            return false;
        }
        proof {
            lemma_grow_preserves(pre, *self);
        }
        let mut pointer = cur;
        let mut c: usize = 1;
        while c < NUMBER_OF_MEM_BLOCKS
            invariant
                pre.wf(),
                pre.is_initialized(),
                1 <= c <= NUMBER_OF_MEM_BLOCKS,
                total == init_total_bytes(),
                cur == pre.brk(),
                pointer == cur + init_bytes_prefix(c as int),
                self.wf(),
                self.is_initialized(),
                self.mem.brk() == cur + total,
                self.blocks_below(pointer as int),
                self.allocs() == pre.allocs(),
                self.mem.regions@ == pre.mem.regions@,
                self.mem.cursor == pre.mem.cursor,
                self.mem.map_limit == pre.mem.map_limit,
                self.mem.heap_cap == pre.mem.heap_cap,
                forall|cc: int|
                    1 <= cc < c ==> (#[trigger] self.lists()[cc]).len() == class_batch_count(cc),
                forall|cc: int|
                    c <= cc < NUMBER_OF_MEM_BLOCKS ==> (#[trigger] self.lists()[cc]).len() == 0,
                self.lists().len() == NUMBER_OF_MEM_BLOCKS,
            decreases NUMBER_OF_MEM_BLOCKS - c,
        {
            proof {
                lemma_batch_bounds(c as int);
                lemma_init_prefix_bounds(c as int + 1);
                assert(init_bytes_prefix(c as int + 1) == init_bytes_prefix(c as int)
                    + class_batch_bytes(c as int));
                lemma_init_prefix_nonneg(c as int);
            }
            let num = ADD_LIST_SIZE / (c * 8);
            proof {
                assert(num == class_batch_count(c as int));
            }
            let bytes = num * (c * 8 + HEADER_SIZE);
            proof {
                assert(bytes == class_batch_bytes(c as int));
                assert(pointer + num * (8 * c + HEADER_SIZE) <= self.mem.brk());
            }
            self.carve(c, num, pointer);
            pointer = pointer + bytes;
            c = c + 1;
        }
        true
    }

    /// Hand out one free block of exactly `size` payload bytes: grow the
    /// class if its list is empty, then pop the head.  Fails (with no other
    /// effect) only when the class was empty and the break could not be
    /// moved.
    fn find_free_mem_block(&mut self, size: usize) -> (r: Result<usize, usize>)
        requires
            old(self).wf(),
            old(self).is_initialized(),
            8 <= size <= MAX_HEAP_SIZE,
            size % 8 == 0,
        ensures
            final(self).wf(),
            final(self).is_initialized(),
            final(self).allocs() == old(self).allocs(),
            r.is_ok() <==> old(self).lists()[size as int / 8].len() > 0 || old(self).heap_room(
                class_batch_bytes(size as int / 8),
            ),
            r.is_err() ==> *final(self) == *old(self),
            r.is_ok() ==> popped_ok(*old(self), *final(self), size, r->Ok_0),
            r.is_ok() && old(self).lists()[size as int / 8].len() == 0 ==> {
                let c = size as int / 8;
                &&& r->Ok_0 == old(self).brk()
                &&& final(self).mem.heap@.len() == old(self).mem.heap@.len()
                    + class_batch_bytes(c)
                &&& final(self).lists() == old(self).lists().update(
                    c,
                    Seq::new(
                        (class_batch_count(c) - 1) as nat,
                        |j: int| slot(old(self).brk(), 8 * c + HEADER_SIZE, j + 1) as usize,
                    ),
                )
            },
    {
        let index = size / MEMORY_ALIGNMENT;
        let ghost pre = *self;
        proof {
            lemma_fundamental_div_mod(size as int, 8);
            assert(8 * (size as int / 8) == size);
            assert(pre.class_ok(index as int));
            if pre.lists()[index as int].len() > 0 {
                assert(pre.free_block_ok(index as int, 0));
                assert(pre.table@[index as int] != 0);
            }
        }
        if self.table[index] == 0 {
            match self.add_list(size) {
                Ok(_) => {},
                Err(e) => {
                    return Err(e);
                },
            }
        }
        let ghost mid = *self;
        proof {
            assert(mid.lists()[index as int].len() > 0) by {
                if pre.lists()[index as int].len() == 0 {
                    lemma_batch_bounds(index as int);
                }
            }
            assert(mid.class_ok(index as int));
            assert(mid.free_block_ok(index as int, 0));
        }
        let header = self.table[index];
        proof {
            assert(header == mid.lists()[index as int][0]);
            assert(forall|x: int|
                header + 16 <= x < header + HEADER_SIZE ==> mid.mem.in_heap(x)
                    && mid.mem.valid(x));
        }
        let next64 = self.mem.load_word(header + 16);
        proof {
            if mid.lists()[index as int].len() > 1 {
                assert(next64 == mid.lists()[index as int][1] as u64);
            } else {
                assert(next64 == 0);
            }
        }
        let next = next64 as usize;
        self.table[index] = next;
        self.free_lists = Ghost(
            mid.lists().update(index as int, mid.lists()[index as int].drop_first()),
        );
        proof {
            assert(self.table@ =~= mid.table@.update(
                index as int,
                (if mid.lists()[index as int].len() > 1 {
                    mid.lists()[index as int][1]
                } else {
                    0usize
                }),
            ));
            lemma_pop_finish(mid, *self, index as int);
            if pre.lists()[index as int].len() > 0 {
                assert(mid == pre);
            } else {
                // the class was grown first: chain the two steps
                assert forall|x: int| pre.mem.valid(x) implies self.mem.valid(x)
                    && self.mem.byte_at(x) == pre.mem.byte_at(x) by {};
                assert forall|cc: int|
                    0 <= cc < NUMBER_OF_MEM_BLOCKS && cc != index as int implies self.lists()[cc]
                    == pre.lists()[cc] by {};
                let c = index as int;
                let bs = 8 * c + HEADER_SIZE;
                let carved = Seq::new(
                    class_batch_count(c) as nat,
                    |j: int| slot(pre.brk(), bs, j) as usize,
                );
                assert(mid.lists()[c] == carved + pre.lists()[c]);
                assert(mid.lists()[c] =~= carved);
                assert(header == carved[0]);
                assert(slot(pre.brk(), bs, 0) == pre.brk());
                assert(self.lists()[c] =~= Seq::new(
                    (class_batch_count(c) - 1) as nat,
                    |j: int| slot(pre.brk(), bs, j + 1) as usize,
                ));
                assert(self.lists() =~= pre.lists().update(
                    c,
                    Seq::new(
                        (class_batch_count(c) - 1) as nat,
                        |j: int| slot(pre.brk(), bs, j + 1) as usize,
                    ),
                ));
            }
        }
        Ok(header)
    }

    /// Allocate `size` bytes and return the address just past the block's
    /// header, or 0 (the null pointer) on failure.  Small requests (aligned
    /// size up to the threshold) are served from the size-class free lists;
    /// larger ones get a dedicated anonymous mapping.  A zero-size request
    /// returns the null pointer.
    #[verifier::rlimit(100)]
    pub fn malloc(&mut self, size: usize) -> (r: usize)
        requires
            old(self).wf(),
            size <= usize::MAX - HEADER_SIZE,
        ensures
            final(self).wf(),
            malloc_post(*old(self), *final(self), size, r),
    {
        if size == 0 {
            return 0;
        }
        let ghost pre = *self;
        if !self.initialized {
            let ok = self.init_malloc();
            if !ok {
                return 0;
            }
        }
        let ghost mid = *self;
        let size_align = get_align(size);
        proof {
            lemma_align_properties(size as int);
        }
        if size_align <= MAX_HEAP_SIZE {
            match self.find_free_mem_block(size_align) {
                Ok(header) => {
                    proof {
                        if !pre.is_initialized() {
                            lemma_batch_bounds(size_align as int / 8);
                        }
                    }
                    let r = header + HEADER_SIZE;
                    self.alloc_map = Ghost(
                        self.alloc_map@.insert(
                            r,
                            Block { size: size_align, mm: false, ri: 0 },
                        ),
                    );
                    proof {
                        let popped = Allocator {
                            alloc_map: Ghost(mid.allocs()),
                            ..*self
                        };
                        assert(popped.alloc_map@ == mid.allocs());
                        lemma_insert_small(popped, *self, header, size_align);
                        assert(!malloc_fails(pre, size));
                        let c = align_spec(size as int) / 8;
                        assert(c == size_align as int / 8);
                        assert(alloc_lists_post(pre, *self, size, r)) by {
                        if !pre.is_initialized() {
                            assert(mid.lists()[c].len() == class_batch_count(c));
                            assert(self.lists() == mid.lists().update(
                                c,
                                mid.lists()[c].drop_first(),
                            ));
                            assert(self.lists()[c].len() == class_batch_count(c) - 1);
                            assert forall|cc: int|
                                1 <= cc < NUMBER_OF_MEM_BLOCKS && cc != c implies (
                            #[trigger] self.lists()[cc]).len() == class_batch_count(cc) by {
                                assert(self.lists()[cc] == mid.lists()[cc]);
                            };
                            assert(self.mem.heap@.len() == init_total_bytes());
                        } else if pre.lists()[c].len() == 0 {
                            assert(self.lists()[c].len() == class_batch_count(c) - 1);
                            assert forall|cc: int|
                                0 <= cc < NUMBER_OF_MEM_BLOCKS && cc != c implies (
                            #[trigger] self.lists()[cc]) == pre.lists()[cc] by {};
                            assert(self.mem.heap@.len() == pre.mem.heap@.len()
                                + class_batch_bytes(c));
                        }
                        }
                    }
                    r
                },
                Err(_) => {
                    proof {
                        if !pre.is_initialized() {
                            lemma_batch_bounds(size_align as int / 8);
                            assert(false);
                        }
                        assert(mid == pre);
                        assert(malloc_fails(pre, size));
                    }
                    0
                },
            }
        } else {
            let mmap_size = size + HEADER_SIZE;
            let n = self.mem.regions.len();
            match self.mem.r_mmap(mmap_size) {
                Ok(base) => {
                    proof {
                        assert(forall|x: int| base <= x < base + 16 ==> self.mem.valid(x));
                    }
                    let ghost m_fresh = self.mem;
                    self.mem.store_word(base, mmap_size as u64);
                    let ghost m_one = self.mem;
                    self.mem.store_word(base + 8, 1u64);
                    let r = base + HEADER_SIZE;
                    self.alloc_map = Ghost(
                        self.alloc_map@.insert(r, Block { size: mmap_size, mm: true, ri: n }),
                    );
                    proof {
                        lemma_mapped_words(
                            mid.mem,
                            m_fresh,
                            m_one,
                            self.mem,
                            base as int,
                            mmap_size,
                            size as int,
                        );
                        lemma_insert_mapped(mid, *self, r, mmap_size, n);
                        assert(!pre.allocs().dom().contains(r)) by {
                            if pre.allocs().dom().contains(r) {
                                assert(pre.alloc_ok(r));
                                if pre.allocs()[r].mm {
                                    let rr = pre.allocs()[r].ri as int;
                                    assert(pre.mem.regions@[rr].base
                                        + pre.mem.regions@[rr].data@.len() <= pre.mem.cursor);
                                } else {
                                    assert(r + pre.allocs()[r].size <= pre.mem.brk());
                                }
                            }
                        }
                        assert(!malloc_fails(pre, size));
                        assert(alloc_lists_post(pre, *self, size, r));
                    }
                    r
                },
                Err(_) => {
                    proof {
                        assert(mid.mem.cursor == pre.mem.cursor);
                        assert(malloc_fails(pre, size));
                    }
                    0
                },
            }
        }
    }

    /// Release a block previously returned by this allocator.  A null
    /// pointer is a no-op.  A free-list block is pushed back on the head of
    /// its size class's list; an mmap block's whole region is unmapped.
    /// Freeing a pointer not currently allocated (double free, foreign
    /// pointer) is a caller contract violation, excluded by precondition.
    #[verifier::rlimit(100)]
    pub fn free(&mut self, pointer: usize)
        requires
            old(self).wf(),
            pointer == 0 || old(self).allocs().dom().contains(pointer),
        ensures
            final(self).wf(),
            free_post(*old(self), *final(self), pointer),
    {
        if pointer == 0 {
            return;
        }
        let ghost pre = *self;
        let ghost b = pre.allocs()[pointer];
        proof {
            assert(pre.alloc_ok(pointer));
            if b.mm {
                assert forall|x: int| pointer - HEADER_SIZE <= x < pointer implies
                    self.mem.valid(x) by {
                    self.mem.lemma_region_byte(b.ri as int, x);
                };
                assert(pre.mem.regions@[b.ri as int].base >= pre.mem.mmap_base());
            } else {
                assert(forall|x: int|
                    pointer - HEADER_SIZE <= x < pointer ==> self.mem.in_heap(x)
                        && self.mem.valid(x));
            }
        }
        let header = get_block_head(pointer);
        let size64 = self.mem.load_word(header);
        let is_mm = self.mem.load_word(header + 8);
        let size = size64 as usize;
        proof {
            assert(size == b.size);
        }
        if is_mm == 1 {
            proof {
                assert(b.mm);
                assert(pre.mem.has_region(header, size)) by {
                    assert(crate::os::region_contains(
                        pre.mem.regions@[b.ri as int],
                        header as int,
                    ));
                }
            }
            let res = self.mem.r_munmap(header, size);
            if res.is_err() {
                // free has no failure channel; in this model the unmap of a
                // recorded mapping cannot be refused.
                proof {
                    assert(false);
                }
            }
            self.alloc_map = Ghost(self.alloc_map@.remove(pointer));
            proof {
                lemma_free_mapped_finish(pre, *self, pointer);
            }
        } else {
            proof {
                assert(!b.mm);
                lemma_fundamental_div_mod(size as int, 8);
            }
            let index = size / MEMORY_ALIGNMENT;
            let first = self.table[index];
            self.table[index] = header;
            self.mem.store_word(header + 16, first as u64);
            self.free_lists = Ghost(
                pre.lists().update(index as int, seq![header] + pre.lists()[index as int]),
            );
            self.alloc_map = Ghost(self.alloc_map@.remove(pointer));
            proof {
                assert(self.table@ =~= pre.table@.update(index as int, header));
                assert(pre.class_ok(index as int));
                lemma_free_small_finish(pre, *self, pointer);
            }
        }
    }

    /// Read one byte of a live allocation's payload.
    pub fn load(&self, pointer: usize, offset: usize) -> (r: u8)
        requires
            self.wf(),
            self.allocs().dom().contains(pointer),
            offset < payload_len(self.allocs()[pointer]),
        ensures
            r == self.mem.byte_at(pointer + offset),
    {
        proof {
            let b = self.allocs()[pointer];
            assert(self.alloc_ok(pointer));
            if b.mm {
                self.mem.lemma_region_byte(b.ri as int, pointer + offset);
            } else {
                assert(self.mem.in_heap(pointer + offset));
            }
        }
        self.mem.load(pointer + offset)
    }

    /// Write one byte of a live allocation's payload.  The headers, the free
    /// lists and every other block are untouched.
    pub fn store(&mut self, pointer: usize, offset: usize, v: u8)
        requires
            old(self).wf(),
            old(self).allocs().dom().contains(pointer),
            offset < payload_len(old(self).allocs()[pointer]),
        ensures
            final(self).wf(),
            final(self).allocs() == old(self).allocs(),
            final(self).lists() == old(self).lists(),
            final(self).table@ == old(self).table@,
            final(self).is_initialized() == old(self).is_initialized(),
            forall|a: int| final(self).mem.valid(a) == old(self).mem.valid(a),
            final(self).mem.same_layout(old(self).mem),
            final(self).mem.byte_at(pointer + offset) == v,
            forall|a: int|
                a != pointer + offset ==> final(self).mem.byte_at(a) == old(self).mem.byte_at(a),
    {
        let ghost pre = *self;
        proof {
            let b = self.allocs()[pointer];
            assert(self.alloc_ok(pointer));
            if b.mm {
                self.mem.lemma_region_byte(b.ri as int, pointer + offset);
            } else {
                assert(self.mem.in_heap(pointer + offset));
            }
        }
        self.mem.store(pointer + offset, v);
        proof {
            lemma_store_payload_finish(pre, *self, pointer, pointer + offset);
        }
    }

    /// Change the size of the block at `pointer`: allocate the aligned new
    /// size, copy the smaller of the old payload and the new size (by
    /// origin-correct payload semantics), free the old block, and return the
    /// new pointer.  A null `pointer` behaves exactly as `malloc` of the
    /// requested size.  If the allocation fails, the original block is left
    /// intact and the null pointer is returned.
    #[verifier::rlimit(100)]
    pub fn realloc(&mut self, pointer: usize, size: usize) -> (r: usize)
        requires
            old(self).wf(),
            pointer == 0 || old(self).allocs().dom().contains(pointer),
            size + 31 <= usize::MAX,
        ensures
            final(self).wf(),
            realloc_post(*old(self), *final(self), pointer, size, r),
    {
        if pointer == 0 {
            return self.malloc(size);
        }
        let size_align = get_align(size);
        proof {
            lemma_align_properties(size as int);
        }
        let ghost pre = *self;
        proof {
            assert(pre.is_initialized()) by {
                if !pre.is_initialized() {
                    assert(pre.allocs() == Map::<usize, Block>::empty());
                }
            }
        }
        let new_ptr = self.malloc(size_align);
        if new_ptr == 0 {
            return 0;
        }
        let ghost s1 = *self;
        let ghost nb = s1.allocs()[new_ptr];
        let ghost ob = s1.allocs()[pointer];
        proof {
            assert(s1.allocs() == pre.allocs().insert(new_ptr, alloc_block(pre, size_align)));
            assert(s1.allocs().dom().contains(pointer));
            assert(ob == pre.allocs()[pointer]);
            assert(s1.alloc_ok(pointer));
            if ob.mm {
                assert forall|x: int| pointer - HEADER_SIZE <= x < pointer implies
                    self.mem.valid(x) by {
                    self.mem.lemma_region_byte(ob.ri as int, x);
                };
            } else {
                assert(forall|x: int|
                    pointer - HEADER_SIZE <= x < pointer ==> self.mem.in_heap(x)
                        && self.mem.valid(x));
            }
        }
        let header = get_block_head(pointer);
        let size64 = self.mem.load_word(header);
        let is_mm = self.mem.load_word(header + 8);
        let old_payload = if is_mm == 1 {
            (size64 as usize) - HEADER_SIZE
        } else {
            size64 as usize
        };
        let copy_size = if old_payload < size_align {
            old_payload
        } else {
            size_align
        };
        proof {
            assert(old_payload == payload_len(ob));
            assert(payload_len(nb) >= size_align);
            lemma_alloc_disjoint(s1, pointer, new_ptr);
        }
        let mut i: usize = 0;
        while i < copy_size
            invariant
                i <= copy_size,
                s1.wf(),
                copy_size <= payload_len(ob),
                copy_size <= payload_len(nb),
                pointer != new_ptr,
                s1.allocs().dom().contains(pointer),
                s1.allocs().dom().contains(new_ptr),
                ob == s1.allocs()[pointer],
                nb == s1.allocs()[new_ptr],
                pointer - HEADER_SIZE + footprint_len(ob) <= new_ptr - HEADER_SIZE || new_ptr
                    - HEADER_SIZE + footprint_len(nb) <= pointer - HEADER_SIZE,
                self.wf(),
                self.allocs() == s1.allocs(),
                self.lists() == s1.lists(),
                self.table@ == s1.table@,
                self.is_initialized() == s1.is_initialized(),
                forall|a: int| self.mem.valid(a) == s1.mem.valid(a),
                self.mem.same_layout(s1.mem),
                forall|o: int|
                    0 <= o < i ==> #[trigger] self.mem.byte_at(new_ptr + o) == s1.mem.byte_at(
                        pointer + o,
                    ),
                forall|a: int|
                    !(new_ptr <= a < new_ptr + copy_size) ==> self.mem.byte_at(a)
                        == s1.mem.byte_at(a),
            decreases copy_size - i,
        {
            let v = self.load(pointer, i);
            proof {
                assert(pointer + i < new_ptr || pointer + i >= new_ptr + copy_size);
            }
            self.store(new_ptr, i, v);
            i = i + 1;
        }
        let ghost s2 = *self;
        self.free(pointer);
        proof {
            assert(self.allocs() =~= pre.allocs().remove(pointer).insert(
                new_ptr,
                alloc_block(pre, size_align),
            ));
            assert forall|o: int| 0 <= o < copy_size implies #[trigger] self.mem.byte_at(
                new_ptr + o,
            ) == pre.mem.byte_at(pointer + o) by {
                assert(s2.mem.byte_at(new_ptr + o) == s1.mem.byte_at(pointer + o));
                assert(s1.mem.byte_at(pointer + o) == pre.mem.byte_at(pointer + o)) by {
                    assert(pre.alloc_ok(pointer));
                    if ob.mm {
                        pre.mem.lemma_region_byte(ob.ri as int, pointer + o);
                    } else {
                        assert(pre.mem.in_heap(pointer + o));
                    }
                }
                assert(s2.alloc_ok(new_ptr));
                if nb.mm {
                    s2.mem.lemma_region_byte(nb.ri as int, new_ptr + o);
                } else {
                    assert(s2.mem.in_heap(new_ptr + o));
                }
                if ob.mm {
                    assert(new_ptr + o < pointer - HEADER_SIZE || new_ptr + o >= pointer
                        - HEADER_SIZE + ob.size);
                } else {
                    assert(!(pointer - 8 <= new_ptr + o < pointer));
                }
            };
            assert(word_at(self.mem, new_ptr as int - HEADER_SIZE) == word_at(
                s2.mem,
                new_ptr as int - HEADER_SIZE,
            ) && word_at(self.mem, new_ptr as int - 16) == word_at(
                s2.mem,
                new_ptr as int - 16,
            )) by {
                assert(s2.alloc_ok(new_ptr));
                assert forall|x: int|
                    new_ptr - HEADER_SIZE <= x < new_ptr - 16 + 8 implies self.mem.byte_at(x)
                    == s2.mem.byte_at(x) by {
                    if nb.mm {
                        s2.mem.lemma_region_byte(nb.ri as int, x);
                    } else {
                        assert(s2.mem.in_heap(x));
                    }
                    if ob.mm {
                        assert(x < pointer - HEADER_SIZE || x >= pointer - HEADER_SIZE + ob.size);
                    } else {
                        assert(!(pointer - 8 <= x < pointer));
                    }
                };
                crate::os::lemma_word_preserved(s2.mem, self.mem, new_ptr as int - HEADER_SIZE);
                crate::os::lemma_word_preserved(s2.mem, self.mem, new_ptr as int - 16);
            }
            assert(word_at(self.mem, new_ptr as int - HEADER_SIZE) == word_at(
                s1.mem,
                new_ptr as int - HEADER_SIZE,
            ) && word_at(self.mem, new_ptr as int - 16) == word_at(
                s1.mem,
                new_ptr as int - 16,
            )) by {
                assert forall|x: int|
                    new_ptr - HEADER_SIZE <= x < new_ptr - 16 + 8 implies s2.mem.byte_at(
                    x,
                ) == s1.mem.byte_at(x) by {};
                crate::os::lemma_word_preserved(s1.mem, s2.mem, new_ptr as int - HEADER_SIZE);
                crate::os::lemma_word_preserved(s1.mem, s2.mem, new_ptr as int - 16);
            }
        }
        new_ptr
    }

    /// Allocate a zero-filled region for `number` elements of `size` bytes
    /// each, through the same allocation path as `malloc` (so the result can
    /// later be freed or resized), and return the null pointer when the
    /// total does not fit or the allocation fails.
    pub fn calloc(&mut self, number: usize, size: usize) -> (r: usize)
        requires
            old(self).wf(),
        ensures
            final(self).wf(),
            calloc_post(*old(self), *final(self), number, size, r),
    {
        if number == 0 || size == 0 {
            return 0;
        }
        if number > (usize::MAX - HEADER_SIZE) / size {
            proof {
                lemma_fundamental_div_mod((usize::MAX - HEADER_SIZE) as int, size as int);
                assert(number * size > usize::MAX - HEADER_SIZE) by (nonlinear_arith)
                    requires
                        number > ((usize::MAX - HEADER_SIZE) as int) / (size as int),
                        size > 0,
                        ((usize::MAX - HEADER_SIZE) as int / (size as int)) * size + ((usize::MAX
                            - HEADER_SIZE) as int % (size as int)) == usize::MAX - HEADER_SIZE,
                        0 <= (usize::MAX - HEADER_SIZE) as int % (size as int) < size,
                ;
            }
            return 0;
        }
        let ghost pre = *self;
        proof {
            lemma_fundamental_div_mod((usize::MAX - HEADER_SIZE) as int, size as int);
            assert(number * size <= usize::MAX - HEADER_SIZE) by (nonlinear_arith)
                requires
                    number <= ((usize::MAX - HEADER_SIZE) as int) / (size as int),
                    size > 0,
                    ((usize::MAX - HEADER_SIZE) as int / (size as int)) * size + ((usize::MAX
                        - HEADER_SIZE) as int % (size as int)) == usize::MAX - HEADER_SIZE,
                    0 <= (usize::MAX - HEADER_SIZE) as int % (size as int) < size,
            ;
            assert(number * size >= 1 * 1) by (nonlinear_arith)
                requires
                    number >= 1,
                    size >= 1,
            ;
        }
        let total = number * size;
        let p = self.malloc(total);
        if p == 0 {
            return 0;
        }
        let ghost s1 = *self;
        proof {
            lemma_align_properties(total as int);
            assert(payload_len(s1.allocs()[p]) >= total);
        }
        let mut i: usize = 0;
        while i < total
            invariant
                i <= total,
                s1.wf(),
                s1.allocs().dom().contains(p),
                total <= payload_len(s1.allocs()[p]),
                self.wf(),
                self.allocs() == s1.allocs(),
                self.lists() == s1.lists(),
                self.table@ == s1.table@,
                self.is_initialized() == s1.is_initialized(),
                forall|a: int| self.mem.valid(a) == s1.mem.valid(a),
                self.mem.same_layout(s1.mem),
                forall|a: int| p <= a < p + i ==> self.mem.byte_at(a) == 0u8,
                forall|a: int|
                    !(p <= a < p + total) ==> self.mem.byte_at(a) == s1.mem.byte_at(a),
            decreases total - i,
        {
            self.store(p, i, 0);
            i = i + 1;
        }
        proof {
            assert(word_at(self.mem, p as int - HEADER_SIZE) == word_at(
                s1.mem,
                p as int - HEADER_SIZE,
            )) by {
                crate::os::lemma_word_preserved(s1.mem, self.mem, p as int - HEADER_SIZE);
            }
            assert(word_at(self.mem, p as int - 16) == word_at(s1.mem, p as int - 16)) by {
                crate::os::lemma_word_preserved(s1.mem, self.mem, p as int - 16);
            }
        }
        p
    }
}

/// The full contract of `realloc`.  A null pointer behaves exactly as
/// `malloc` of the requested size.  Otherwise, on success, the old block is
/// released exactly once (a free-list block becomes the head of its class's
/// list, a mapped block's region is unmapped), no other class changes, the
/// new block holds the first `min(old payload, new aligned size)` bytes of
/// the old payload, and on failure the allocator is untouched (the original
/// block stays intact).
pub open spec fn realloc_post(
    pre: Allocator,
    post: Allocator,
    pointer: usize,
    size: usize,
    r: usize,
) -> bool {
    let al = align_spec(size as int);
    &&& (pointer == 0 ==> malloc_post(pre, post, size, r))
    &&& (pointer != 0 ==> {
        let b = pre.allocs()[pointer];
        let copy = if payload_len(b) < al {
            payload_len(b)
        } else {
            al
        };
        &&& (r == 0 <==> malloc_fails(pre, al as usize))
        &&& (r == 0 ==> post == pre)
        &&& (r != 0 ==> {
            &&& r != pointer
            &&& !pre.allocs().dom().contains(r)
            &&& post.allocs() == pre.allocs().remove(pointer).insert(
                r,
                alloc_block(pre, al as usize),
            )
            &&& forall|o: int|
                0 <= o < copy ==> #[trigger] post.mem.byte_at(r + o) == pre.mem.byte_at(
                    pointer + o,
                )
            &&& word_at(post.mem, r as int - HEADER_SIZE) == (if al <= MAX_HEAP_SIZE {
                al
            } else {
                al + HEADER_SIZE
            })
            &&& word_at(post.mem, r as int - 16) == (if al <= MAX_HEAP_SIZE {
                0int
            } else {
                1int
            })
            // the old block was released exactly once: a free-list block is
            // now the head of its class's list, a mapped block's region is
            // gone ...
            &&& (!b.mm ==> post.lists()[b.size as int / 8].len() > 0
                && post.lists()[b.size as int / 8][0] == (pointer - HEADER_SIZE) as usize)
            &&& (b.mm ==> forall|x: int|
                pointer - HEADER_SIZE <= x < pointer - HEADER_SIZE + b.size
                    ==> !post.mem.valid(x))
            // ... and no class but the new block's and the old block's
            // changed
            &&& forall|cc: int|
                0 <= cc < NUMBER_OF_MEM_BLOCKS && cc != al / 8 && !(!b.mm && cc == b.size as int
                    / 8) ==> (#[trigger] post.lists()[cc]) == pre.lists()[cc]
        })
    })
}

/// The full contract of `calloc`: the product that does not fit leaves the
/// allocator untouched; otherwise the call allocates exactly as `malloc` of
/// the product would, and the returned region reads as all zeroes.
pub open spec fn calloc_post(
    pre: Allocator,
    post: Allocator,
    number: usize,
    size: usize,
    r: usize,
) -> bool {
    let total = number as int * size as int;
    &&& (total > usize::MAX - HEADER_SIZE ==> r == 0 && post == pre)
    &&& (total <= usize::MAX - HEADER_SIZE ==> {
        &&& (r == 0 <==> malloc_fails(pre, total as usize))
        &&& (r == 0 && pre.is_initialized() ==> post == pre)
        &&& (r == 0 ==> post.allocs() == pre.allocs())
        &&& alloc_lists_post(pre, post, total as usize, r)
        &&& (r != 0 ==> {
            &&& !pre.allocs().dom().contains(r)
            &&& post.allocs() == pre.allocs().insert(r, alloc_block(pre, total as usize))
            &&& forall|x: int| r <= x < r + total ==> post.mem.byte_at(x) == 0u8
            &&& word_at(post.mem, r as int - HEADER_SIZE) == (if align_spec(total)
                <= MAX_HEAP_SIZE {
                align_spec(total)
            } else {
                total + HEADER_SIZE
            })
        })
    })
}

/// Most-recently-freed-first reuse: freeing a small block and immediately
/// requesting a size with the same aligned class, with no intervening
/// allocations, returns the same address.
pub proof fn lemma_free_then_malloc_reuses(
    s0: Allocator,
    s1: Allocator,
    s2: Allocator,
    p: usize,
    n: usize,
    r: usize,
)
    requires
        s0.wf(),
        s0.allocs().dom().contains(p),
        !s0.allocs()[p].mm,
        s0.allocs()[p].size == align_spec(n as int),
        n > 0,
        free_post(s0, s1, p),
        malloc_post(s1, s2, n, r),
    ensures
        r == p,
{
    let b = s0.allocs()[p];
    let c = b.size as int / 8;
    assert(s0.alloc_ok(p));
    assert(s0.is_initialized()) by {
        if !s0.is_initialized() {
            assert(s0.allocs() == Map::<usize, Block>::empty());
        }
    }
    assert(s1.lists()[c][0] == (p - HEADER_SIZE) as usize);
    assert(s1.lists()[c].len() > 0);
    assert(!malloc_fails(s1, n));
    assert(r == s1.lists()[c][0] + HEADER_SIZE);
}

} // verus!

