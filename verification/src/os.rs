//! The raw OS primitive layer: a model of the process address space.
//!
//! The linear heap is a contiguous, append-only region starting at
//! `HEAP_BASE`, grown by break adjustments (`r_sbrk`).  Anonymous mappings
//! (`r_mmap` / `r_munmap`) are separately owned regions placed above the
//! heap's capacity limit, at monotonically increasing addresses.  All three
//! operations report failure explicitly (a sentinel for `r_sbrk`, a `Result`
//! for the mappings) instead of panicking, mirroring a brk/mmap kernel
//! interface whose calls can be refused.

use vstd::prelude::*;

verus! {

/// Lowest address of the linear heap; address 0 is the null pointer.
pub const HEAP_BASE: usize = 4096;

/// One anonymous mapping: a span of owned bytes at a fixed base address.
/// An unmapped region keeps its base and length for the address bookkeeping
/// but is no longer readable (`live` is false).
pub struct Region {
    pub base: usize,
    pub data: Vec<u8>,
    pub live: bool,
}

/// Does the live region `r` contain address `a`?
pub open spec fn region_contains(r: Region, a: int) -> bool {
    r.live && r.base <= a < r.base + r.data@.len()
}

/// Index of the region containing `a`, searching from the most recently
/// mapped region down; -1 when no live region contains `a`.
pub open spec fn region_find(rs: Seq<Region>, a: int) -> int
    decreases rs.len(),
{
    if rs.len() == 0 {
        -1
    } else if region_contains(rs[rs.len() - 1], a) {
        rs.len() - 1
    } else {
        region_find(rs.drop_last(), a)
    }
}

/// Regions occupy pairwise disjoint address ranges, in mapping order.
pub open spec fn regions_ordered(rs: Seq<Region>) -> bool {
    forall|i: int, j: int|
        #![trigger rs[i], rs[j]]
        0 <= i < j < rs.len() ==> rs[i].base + rs[i].data@.len() <= rs[j].base
}

/// The modelled address space: the linear heap and the anonymous mappings.
pub struct Memory {
    /// Bytes of the linear heap; the byte at offset `o` has address
    /// `HEAP_BASE + o`.  The current break is the address one past the end.
    pub heap: Vec<u8>,
    /// Most heap bytes the kernel will grant: break adjustments beyond this
    /// are refused.
    pub heap_cap: usize,
    /// Every anonymous mapping made so far, live or not.
    pub regions: Vec<Region>,
    /// Address at which the next mapping will be placed.
    pub cursor: usize,
    /// Mappings are refused once they would reach this address.
    pub map_limit: usize,
}

impl Memory {
    /// The current program break: one past the last heap byte.
    pub open spec fn brk(self) -> int {
        HEAP_BASE + self.heap@.len()
    }

    /// Lowest address available to anonymous mappings, above the whole
    /// heap-capacity range.
    pub open spec fn mmap_base(self) -> int {
        HEAP_BASE + self.heap_cap
    }

    pub open spec fn in_heap(self, a: int) -> bool {
        HEAP_BASE <= a < self.brk()
    }

    /// Address `a` holds an accessible byte.
    pub open spec fn valid(self, a: int) -> bool {
        self.in_heap(a) || region_find(self.regions@, a) >= 0
    }

    /// The byte stored at address `a` (0 for an inaccessible address).
    pub open spec fn byte_at(self, a: int) -> u8 {
        if self.in_heap(a) {
            self.heap@[a - HEAP_BASE]
        } else {
            let i = region_find(self.regions@, a);
            if i >= 0 {
                self.regions@[i].data@[a - self.regions@[i].base]
            } else {
                0
            }
        }
    }

    pub open spec fn wf(self) -> bool {
        &&& self.heap@.len() <= self.heap_cap
        &&& self.mmap_base() <= self.cursor <= self.map_limit
        &&& self.map_limit < usize::MAX
        &&& forall|i: int|
            0 <= i < self.regions@.len() ==> {
                &&& self.mmap_base() <= (#[trigger] self.regions@[i]).base
                &&& self.regions@[i].base + self.regions@[i].data@.len() <= self.cursor
                &&& self.regions@[i].data@.len() >= 1
            }
        &&& regions_ordered(self.regions@)
    }

    /// The two memories have the same shape: same break, capacity, cursor,
    /// and regions at the same places; only byte contents may differ.
    pub open spec fn same_layout(self, other: Memory) -> bool {
        &&& self.heap@.len() == other.heap@.len()
        &&& self.heap_cap == other.heap_cap
        &&& self.cursor == other.cursor
        &&& self.map_limit == other.map_limit
        &&& self.regions@.len() == other.regions@.len()
        &&& forall|i: int|
            0 <= i < self.regions@.len() ==> {
                &&& (#[trigger] self.regions@[i]).base == other.regions@[i].base
                &&& self.regions@[i].live == other.regions@[i].live
                &&& self.regions@[i].data@.len() == other.regions@[i].data@.len()
            }
    }

    /// A fresh address space: an empty heap that may grow to `heap_cap`
    /// bytes, and room for `map_cap` bytes of anonymous mappings above it.
    pub fn new(heap_cap: usize, map_cap: usize) -> (r: Memory)
        requires
            HEAP_BASE + heap_cap + map_cap < usize::MAX,
        ensures
            r.wf(),
            r.heap@.len() == 0,
            r.heap_cap == heap_cap,
            r.regions@.len() == 0,
            r.cursor == r.mmap_base(),
            r.map_limit == r.mmap_base() + map_cap,
    {
        Memory {
            heap: Vec::new(),
            heap_cap,
            regions: Vec::new(),
            cursor: HEAP_BASE + heap_cap,
            map_limit: HEAP_BASE + heap_cap + map_cap,
        }
    }
}

/// A region's containment test reads only its base, length and liveness, so
/// two region sequences that agree on those find the same region for `a`.
proof fn lemma_region_find_congruent(rs1: Seq<Region>, rs2: Seq<Region>, a: int)
    requires
        rs1.len() == rs2.len(),
        forall|j: int|
            0 <= j < rs1.len() ==> {
                &&& (#[trigger] rs1[j]).base == rs2[j].base
                &&& rs1[j].live == rs2[j].live
                &&& rs1[j].data@.len() == rs2[j].data@.len()
            },
    ensures
        region_find(rs1, a) == region_find(rs2, a),
    decreases rs1.len(),
{
    if rs1.len() > 0 {
        lemma_region_find_congruent(rs1.drop_last(), rs2.drop_last(), a);
    }
}

/// A successful find returns an in-range index whose region contains `a`.
pub proof fn lemma_region_find_valid(rs: Seq<Region>, a: int)
    ensures
        region_find(rs, a) == -1 || (0 <= region_find(rs, a) < rs.len()
            && region_contains(rs[region_find(rs, a)], a)),
    decreases rs.len(),
{
    if rs.len() > 0 && !region_contains(rs[rs.len() - 1], a) {
        lemma_region_find_valid(rs.drop_last(), a);
    }
}

/// With disjoint regions, the region containing `a` is unique, so a find
/// returns exactly the index of any region known to contain `a`.
pub proof fn lemma_region_find_unique(rs: Seq<Region>, a: int, i: int)
    requires
        regions_ordered(rs),
        0 <= i < rs.len(),
        region_contains(rs[i], a),
    ensures
        region_find(rs, a) == i,
    decreases rs.len(),
{
    if i == rs.len() - 1 {
    } else {
        assert(rs[i].base + rs[i].data@.len() <= rs[rs.len() - 1].base);
        assert(!region_contains(rs[rs.len() - 1], a));
        lemma_region_find_unique(rs.drop_last(), a, i);
    }
}

impl Memory {
    /// Relates the exec search to `region_find`; used by `load` and `store`.
    proof fn lemma_find_step(self, a: int, j: int)
        requires
            0 <= j < self.regions@.len(),
            !region_contains(self.regions@[j], a),
            region_find(self.regions@, a) == region_find(self.regions@.take(j + 1), a),
        ensures
            region_find(self.regions@, a) == region_find(self.regions@.take(j), a),
    {
        let rs = self.regions@;
        assert(rs.take(j + 1).drop_last() =~= rs.take(j));
        assert(rs.take(j + 1)[j] == rs[j]);
    }

    /// Adjust the program break.  With `increment == 0`, reports the current
    /// break without side effects.  Otherwise attempts to extend the heap by
    /// `increment` zero bytes, returning the previous break on success and
    /// the sentinel `usize::MAX` if the kernel model refuses the growth
    /// (capacity exceeded).
    pub fn r_sbrk(&mut self, increment: usize) -> (r: usize)
        requires
            old(self).wf(),
        ensures
            final(self).wf(),
            increment == 0 ==> r == old(self).brk() && *final(self) == *old(self),
            increment > 0 && old(self).heap@.len() + increment <= old(self).heap_cap ==> {
                &&& r == old(self).brk()
                &&& final(self).heap@ == old(self).heap@ + Seq::new(increment as nat, |i: int| 0u8)
                &&& final(self).heap_cap == old(self).heap_cap
                &&& final(self).regions@ == old(self).regions@
                &&& final(self).cursor == old(self).cursor
                &&& final(self).map_limit == old(self).map_limit
            },
            increment > 0 && old(self).heap@.len() + increment > old(self).heap_cap ==> {
                &&& r == usize::MAX
                &&& *final(self) == *old(self)
            },
            old(self).brk() < usize::MAX,
    {
        let cur = HEAP_BASE + self.heap.len();
        if increment == 0 {
            return cur;
        }
        if increment <= self.heap_cap - self.heap.len() {
            let ghost pre = self.heap@;
            let mut i: usize = 0;
            while i < increment
                invariant
                    i <= increment,
                    pre == old(self).heap@,
                    pre.len() + increment <= self.heap_cap,
                    self.heap_cap == old(self).heap_cap,
                    self.regions@ == old(self).regions@,
                    self.cursor == old(self).cursor,
                    self.map_limit == old(self).map_limit,
                    old(self).wf(),
                    self.heap@.len() == pre.len() + i,
                    forall|j: int| 0 <= j < pre.len() ==> self.heap@[j] == pre[j],
                    forall|j: int| pre.len() <= j < pre.len() + i ==> self.heap@[j] == 0u8,
                decreases increment - i,
            {
                self.heap.push(0);
                i = i + 1;
            }
            proof {
                assert(self.heap@ =~= pre + Seq::new(increment as nat, |i: int| 0u8));
            }
            cur
        } else {
            usize::MAX
        }
    }

    /// Map `length` fresh zero bytes at the next free mapping address.
    /// Fails when the request is empty or would exceed the mapping limit.
    pub fn r_mmap(&mut self, length: usize) -> (r: Result<usize, i32>)
        requires
            old(self).wf(),
        ensures
            final(self).wf(),
            r.is_ok() <==> length >= 1 && old(self).cursor + length <= old(self).map_limit,
            r.is_err() ==> *final(self) == *old(self),
            r.is_ok() ==> {
                &&& r->Ok_0 == old(self).cursor
                &&& final(self).heap@ == old(self).heap@
                &&& final(self).heap_cap == old(self).heap_cap
                &&& final(self).map_limit == old(self).map_limit
                &&& final(self).cursor == old(self).cursor + length
                &&& final(self).regions@.len() == old(self).regions@.len() + 1
                &&& forall|i: int|
                    0 <= i < old(self).regions@.len()
                        ==> final(self).regions@[i] == old(self).regions@[i]
                &&& final(self).regions@.last().base == old(self).cursor
                &&& final(self).regions@.last().live
                &&& final(self).regions@.last().data@ == Seq::new(length as nat, |i: int| 0u8)
                &&& forall|a: int|
                    old(self).valid(a)
                        ==> final(self).valid(a) && final(self).byte_at(a) == old(self).byte_at(a)
                &&& forall|a: int|
                    final(self).valid(a)
                        ==> old(self).valid(a) || old(self).cursor <= a < old(self).cursor + length
                &&& forall|a: int|
                    old(self).cursor <= a < old(self).cursor + length
                        ==> final(self).valid(a) && final(self).byte_at(a) == 0u8
            },
    {
        if length >= 1 && length <= self.map_limit - self.cursor {
            let base = self.cursor;
            let mut data: Vec<u8> = Vec::new();
            let mut i: usize = 0;
            while i < length
                invariant
                    i <= length,
                    data@.len() == i,
                    forall|j: int| 0 <= j < i ==> data@[j] == 0u8,
                decreases length - i,
            {
                data.push(0);
                i = i + 1;
            }
            proof {
                assert(data@ =~= Seq::new(length as nat, |i: int| 0u8));
            }
            let region = Region { base, data, live: true };
            self.regions.push(region);
            self.cursor = self.cursor + length;
            proof {
                let pre = old(self).regions@;
                let post = self.regions@;
                assert(post.drop_last() =~= pre);
                assert forall|a: int| !(base <= a < base + length) implies region_find(
                    post,
                    a,
                ) == region_find(pre, a) by {
                    assert(!region_contains(post[post.len() - 1], a));
                };
                assert forall|a: int| old(self).valid(a) implies self.valid(a) && self.byte_at(a)
                    == old(self).byte_at(a) by {
                    lemma_region_find_valid(pre, a);
                    if old(self).in_heap(a) {
                    } else {
                        let i = region_find(pre, a);
                        assert(pre[i].base + pre[i].data@.len() <= old(self).cursor);
                        assert(region_find(post, a) == i);
                    }
                };
                assert forall|a: int| base <= a < base + length implies self.valid(a)
                    && self.byte_at(a) == 0u8 by {
                    assert(region_contains(post[post.len() - 1], a));
                    lemma_region_find_unique(post, a, post.len() - 1);
                };
                assert forall|a: int| self.valid(a) implies old(self).valid(a) || base <= a < base
                    + length by {
                    if !self.in_heap(a) && !(base <= a < base + length) {
                        assert(region_find(post, a) == region_find(pre, a));
                    }
                };
            }
            Ok(base)
        } else {
            Err(-1)
        }
    }

    /// Is there a live mapping of exactly `length` bytes at `addr`?
    pub open spec fn has_region(self, addr: usize, length: usize) -> bool {
        exists|i: int|
            0 <= i < self.regions@.len() && (#[trigger] self.regions@[i]).live
                && self.regions@[i].base == addr && self.regions@[i].data@.len() == length
    }

    /// Unmap the live mapping of exactly `length` bytes at `addr`.  Fails
    /// (with no other effect) when no such mapping exists.
    pub fn r_munmap(&mut self, addr: usize, length: usize) -> (r: Result<(), i32>)
        requires
            old(self).wf(),
        ensures
            final(self).wf(),
            r.is_ok() <==> old(self).has_region(addr, length),
            r.is_err() ==> *final(self) == *old(self),
            r.is_ok() ==> {
                &&& final(self).heap@ == old(self).heap@
                &&& final(self).heap_cap == old(self).heap_cap
                &&& final(self).cursor == old(self).cursor
                &&& final(self).map_limit == old(self).map_limit
                &&& final(self).regions@.len() == old(self).regions@.len()
                &&& forall|i: int|
                    0 <= i < old(self).regions@.len() ==> {
                        let pre = old(self).regions@[i];
                        let post = #[trigger] final(self).regions@[i];
                        &&& post.base == pre.base
                        &&& post.data@ == pre.data@
                        &&& post.live == (pre.live && pre.base != addr)
                    }
                &&& forall|a: int|
                    old(self).valid(a) && !(addr <= a < addr + length)
                        ==> final(self).valid(a) && final(self).byte_at(a) == old(self).byte_at(a)
                &&& forall|a: int| addr <= a < addr + length ==> !final(self).valid(a)
                &&& forall|a: int| final(self).valid(a) ==> old(self).valid(a)
            },
    {
        let n = self.regions.len();
        let mut j: usize = n;
        while j > 0
            invariant
                j <= n,
                n == self.regions@.len(),
                *self == *old(self),
                old(self).wf(),
                forall|i: int|
                    j <= i < n ==> !((#[trigger] self.regions@[i]).live
                        && self.regions@[i].base == addr && self.regions@[i].data@.len() == length),
            decreases j,
        {
            j = j - 1;
            let live = self.regions[j].live;
            let base = self.regions[j].base;
            let rlen = self.regions[j].data.len();
            if live && base == addr && rlen == length {
                self.regions[j].live = false;
                proof {
                    let pre = old(self).regions@;
                    let post = self.regions@;
                    assert(post =~= pre.update(j as int, post[j as int]));
                    // Bases are strictly increasing, so index j is the only
                    // region at this base.
                    assert forall|i: int|
                        0 <= i < pre.len() && i != j implies pre[i].base != addr by {
                        if i < j {
                            assert(pre[i].base + pre[i].data@.len() <= pre[j as int].base);
                        } else {
                            assert(pre[j as int].base + length <= pre[i].base);
                        }
                    };
                    assert forall|a: int|
                        old(self).valid(a) && !(addr <= a < addr + length) implies self.valid(a)
                        && self.byte_at(a) == old(self).byte_at(a) by {
                        lemma_region_find_congruent_update_dead(pre, post, j as int, a);
                        lemma_region_find_valid(pre, a);
                    };
                    assert forall|a: int| addr <= a < addr + length implies !self.valid(a) by {
                        lemma_region_find_valid(post, a);
                        if region_find(post, a) >= 0 {
                            let i = region_find(post, a);
                            assert(region_contains(post[i], a));
                            if i != j {
                                if i < j {
                                    assert(pre[i].base + pre[i].data@.len()
                                        <= pre[j as int].base);
                                } else {
                                    assert(pre[j as int].base + length <= pre[i].base);
                                }
                            }
                        }
                        assert(a < old(self).mmap_base() ==> a < HEAP_BASE + self.heap_cap);
                    };
                    assert forall|a: int| self.valid(a) implies old(self).valid(a) by {
                        lemma_region_find_valid(post, a);
                        if !self.in_heap(a) {
                            let i = region_find(post, a);
                            assert(region_contains(pre[i], a));
                            lemma_region_find_unique(pre, a, i);
                        }
                    };
                }
                return Ok(());
            }
        }
        proof {
            assert forall|i: int|
                0 <= i < n implies !((#[trigger] self.regions@[i]).live && self.regions@[i].base
                == addr && self.regions@[i].data@.len() == length) by {};
        }
        Err(-1)
    }

    /// Read the byte at `addr`.
    pub fn load(&self, addr: usize) -> (r: u8)
        requires
            self.wf(),
            self.valid(addr as int),
        ensures
            r == self.byte_at(addr as int),
    {
        if addr >= HEAP_BASE && addr - HEAP_BASE < self.heap.len() {
            return self.heap[addr - HEAP_BASE];
        }
        let a = addr;
        let n = self.regions.len();
        let mut j: usize = n;
        proof {
            assert(self.regions@.take(n as int) =~= self.regions@);
        }
        while j > 0
            invariant
                j <= n,
                a == addr,
                n == self.regions@.len(),
                self.wf(),
                self.valid(a as int),
                !self.in_heap(a as int),
                region_find(self.regions@, a as int) == region_find(
                    self.regions@.take(j as int),
                    a as int,
                ),
            decreases j,
        {
            j = j - 1;
            let live = self.regions[j].live;
            let base = self.regions[j].base;
            let rlen = self.regions[j].data.len();
            if live && base <= a && a - base < rlen {
                proof {
                    lemma_region_find_unique(self.regions@, a as int, j as int);
                    assert(self.byte_at(a as int) == self.regions@[j as int].data@[a as int
                        - self.regions@[j as int].base]);
                }
                return self.regions[j].data[a - base];
            }
            proof {
                self.lemma_find_step(a as int, j as int);
            }
        }
        proof {
            assert(self.regions@.take(0) =~= Seq::<Region>::empty());
            assert(false);
        }
        0
    }

    /// Write the byte `v` at `addr`.  Changes that byte and nothing else;
    /// the shape of the address space is untouched.
    pub fn store(&mut self, addr: usize, v: u8)
        requires
            old(self).wf(),
            old(self).valid(addr as int),
        ensures
            final(self).wf(),
            final(self).same_layout(*old(self)),
            forall|a: int| final(self).valid(a) == old(self).valid(a),
            final(self).byte_at(addr as int) == v,
            forall|a: int| a != addr ==> final(self).byte_at(a) == old(self).byte_at(a),
            old(self).in_heap(addr as int) ==> final(self).regions@ == old(self).regions@,
            !old(self).in_heap(addr as int) ==> final(self).heap@ == old(self).heap@,
    {
        if addr >= HEAP_BASE && addr - HEAP_BASE < self.heap.len() {
            self.heap[addr - HEAP_BASE] = v;
            proof {
                assert forall|a: int| self.valid(a) == old(self).valid(a) by {};
            }
            return;
        }
        let a = addr;
        let n = self.regions.len();
        let mut j: usize = n;
        proof {
            assert(self.regions@.take(n as int) =~= self.regions@);
        }
        while j > 0
            invariant
                j <= n,
                a == addr,
                n == self.regions@.len(),
                *self == *old(self),
                old(self).wf(),
                old(self).valid(a as int),
                !old(self).in_heap(a as int),
                region_find(self.regions@, a as int) == region_find(
                    self.regions@.take(j as int),
                    a as int,
                ),
            decreases j,
        {
            j = j - 1;
            let live = self.regions[j].live;
            let base = self.regions[j].base;
            let rlen = self.regions[j].data.len();
            if live && base <= a && a - base < rlen {
                proof {
                    lemma_region_find_unique(self.regions@, a as int, j as int);
                }
                self.regions[j].data[a - base] = v;
                proof {
                    let pre = old(self).regions@;
                    let post = self.regions@;
                    assert(post =~= pre.update(j as int, post[j as int]));
                    assert forall|x: int| region_find(post, x) == region_find(pre, x) by {
                        lemma_region_find_congruent(pre, post, x);
                    };
                    assert(post[j as int].data@ == pre[j as int].data@.update(
                        a as int - base as int,
                        v,
                    ));
                    assert(post[j as int].base == base);
                    assert(region_find(post, a as int) == j as int);
                    assert(!self.in_heap(a as int));
                    assert(self.byte_at(a as int) == post[j as int].data@[a as int - base as int]);
                    assert((a as int - base as int) < pre[j as int].data@.len());
                    assert(pre[j as int].data@.update(a as int - base as int, v)[a as int
                        - base as int] == v);
                    assert(self.byte_at(addr as int) == v);
                    assert forall|x: int| x != addr implies self.byte_at(x) == old(self).byte_at(
                        x,
                    ) by {
                        if !self.in_heap(x) {
                            lemma_region_find_valid(post, x);
                            let i = region_find(post, x);
                            if i >= 0 && i == j {
                                assert(region_contains(post[j as int], x));
                                assert(x != a as int);
                                assert(pre[j as int].data@.update(a as int - base as int, v)[x
                                    - base as int] == pre[j as int].data@[x - base as int]);
                            }
                        }
                    };
                }
                return;
            }
            proof {
                self.lemma_find_step(a as int, j as int);
            }
        }
        proof {
            assert(self.regions@.take(0) =~= Seq::<Region>::empty());
            assert(false);
        }
    }
}

/// The 64-bit little-endian word stored in the 8 bytes at address `a`.
pub open spec fn word_at(m: Memory, a: int) -> u64 {
    (m.byte_at(a) as u64) | ((m.byte_at(a + 1) as u64) << 8) | ((m.byte_at(a + 2) as u64) << 16)
        | ((m.byte_at(a + 3) as u64) << 24) | ((m.byte_at(a + 4) as u64) << 32) | ((m.byte_at(
        a + 5,
    ) as u64) << 40) | ((m.byte_at(a + 6) as u64) << 48) | ((m.byte_at(a + 7) as u64) << 56)
}

/// Two memories that agree byte-for-byte on the 8 bytes at `a` hold the
/// same word there.
pub proof fn lemma_word_preserved(pre: Memory, post: Memory, a: int)
    requires
        forall|x: int| a <= x < a + 8 ==> post.byte_at(x) == pre.byte_at(x),
    ensures
        word_at(post, a) == word_at(pre, a),
{
    assert(post.byte_at(a) == pre.byte_at(a));
    assert(post.byte_at(a + 1) == pre.byte_at(a + 1));
    assert(post.byte_at(a + 2) == pre.byte_at(a + 2));
    assert(post.byte_at(a + 3) == pre.byte_at(a + 3));
    assert(post.byte_at(a + 4) == pre.byte_at(a + 4));
    assert(post.byte_at(a + 5) == pre.byte_at(a + 5));
    assert(post.byte_at(a + 6) == pre.byte_at(a + 6));
    assert(post.byte_at(a + 7) == pre.byte_at(a + 7));
}

impl Memory {
    /// Every accessible address lies below the mapping limit (and so below
    /// `usize::MAX`).
    pub proof fn lemma_valid_bound(self, a: int)
        requires
            self.wf(),
            self.valid(a),
        ensures
            HEAP_BASE <= a < self.map_limit,
    {
        if !self.in_heap(a) {
            lemma_region_find_valid(self.regions@, a);
        }
    }

    /// An address inside a live region is accessible, and reads that
    /// region's byte.
    pub proof fn lemma_region_byte(self, i: int, a: int)
        requires
            self.wf(),
            0 <= i < self.regions@.len(),
            region_contains(self.regions@[i], a),
        ensures
            self.valid(a),
            self.byte_at(a) == self.regions@[i].data@[a - self.regions@[i].base],
    {
        lemma_region_find_unique(self.regions@, a, i);
        assert(!self.in_heap(a)) by {
            assert(self.regions@[i].base >= self.mmap_base());
        }
    }

    /// Read the 64-bit little-endian word at `addr`.
    pub fn load_word(&self, addr: usize) -> (r: u64)
        requires
            self.wf(),
            forall|a: int| addr <= a < addr + 8 ==> self.valid(a),
        ensures
            r == word_at(*self, addr as int),
    {
        proof {
            self.lemma_valid_bound(addr as int + 7);
        }
        (self.load(addr) as u64) | ((self.load(addr + 1) as u64) << 8) | ((self.load(addr + 2)
            as u64) << 16) | ((self.load(addr + 3) as u64) << 24) | ((self.load(addr + 4) as u64)
            << 32) | ((self.load(addr + 5) as u64) << 40) | ((self.load(addr + 6) as u64) << 48)
            | ((self.load(addr + 7) as u64) << 56)
    }

    /// Write the 64-bit little-endian word `x` at `addr`.  Changes those 8
    /// bytes and nothing else.
    pub fn store_word(&mut self, addr: usize, x: u64)
        requires
            old(self).wf(),
            forall|a: int| addr <= a < addr + 8 ==> old(self).valid(a),
        ensures
            final(self).wf(),
            final(self).same_layout(*old(self)),
            forall|a: int| final(self).valid(a) == old(self).valid(a),
            word_at(*final(self), addr as int) == x,
            forall|a: int|
                !(addr <= a < addr + 8) ==> final(self).byte_at(a) == old(self).byte_at(a),
            (forall|a: int| addr <= a < addr + 8 ==> old(self).in_heap(a))
                ==> final(self).regions@ == old(self).regions@,
    {
        proof {
            self.lemma_valid_bound(addr as int + 7);
        }
        self.store(addr, (x & 0xff) as u8);
        let ghost m1 = *self;
        self.store(addr + 1, ((x >> 8) & 0xff) as u8);
        let ghost m2 = *self;
        self.store(addr + 2, ((x >> 16) & 0xff) as u8);
        let ghost m3 = *self;
        self.store(addr + 3, ((x >> 24) & 0xff) as u8);
        let ghost m4 = *self;
        self.store(addr + 4, ((x >> 32) & 0xff) as u8);
        let ghost m5 = *self;
        self.store(addr + 5, ((x >> 40) & 0xff) as u8);
        let ghost m6 = *self;
        self.store(addr + 6, ((x >> 48) & 0xff) as u8);
        let ghost m7 = *self;
        self.store(addr + 7, ((x >> 56) & 0xff) as u8);
        proof {
            if forall|a: int| addr <= a < addr + 8 ==> old(self).in_heap(a) {
                assert(old(self).in_heap(addr as int));
                assert(old(self).in_heap(addr as int + 1));
                assert(old(self).in_heap(addr as int + 2));
                assert(old(self).in_heap(addr as int + 3));
                assert(old(self).in_heap(addr as int + 4));
                assert(old(self).in_heap(addr as int + 5));
                assert(old(self).in_heap(addr as int + 6));
                assert(old(self).in_heap(addr as int + 7));
                assert(m1.heap@.len() == old(self).heap@.len());
                assert(m2.heap@.len() == old(self).heap@.len());
                assert(m3.heap@.len() == old(self).heap@.len());
                assert(m4.heap@.len() == old(self).heap@.len());
                assert(m5.heap@.len() == old(self).heap@.len());
                assert(m6.heap@.len() == old(self).heap@.len());
                assert(m7.heap@.len() == old(self).heap@.len());
                assert(self.regions@ == old(self).regions@);
            }
            assert(self.byte_at(addr as int) == (x & 0xff) as u8);
            assert((((x & 0xff) as u8) as u64) | ((((x >> 8) & 0xff) as u8) as u64) << 8 | ((((x
                >> 16) & 0xff) as u8) as u64) << 16 | ((((x >> 24) & 0xff) as u8) as u64) << 24 | ((((
            x >> 32) & 0xff) as u8) as u64) << 32 | ((((x >> 40) & 0xff) as u8) as u64) << 40 | ((((
            x >> 48) & 0xff) as u8) as u64) << 48 | ((((x >> 56) & 0xff) as u8) as u64) << 56
                == x) by (bit_vector);
        }
    }
}

/// Marking region `j` dead leaves the find result unchanged for every
/// address outside that region's range.
proof fn lemma_region_find_congruent_update_dead(
    pre: Seq<Region>,
    post: Seq<Region>,
    j: int,
    a: int,
)
    requires
        pre.len() == post.len(),
        0 <= j < pre.len(),
        !region_contains(pre[j], a),
        forall|i: int| 0 <= i < pre.len() && i != j ==> #[trigger] post[i] == pre[i],
        post[j].base == pre[j].base,
        post[j].data@.len() == pre[j].data@.len(),
        !post[j].live,
    ensures
        region_find(post, a) == region_find(pre, a),
    decreases pre.len(),
{
    if pre.len() > 0 {
        if j == pre.len() - 1 {
            assert(!region_contains(post[j], a));
            assert(pre.drop_last() =~= post.drop_last());
        } else {
            assert(region_contains(pre[pre.len() - 1], a) == region_contains(
                post[post.len() - 1],
                a,
            ));
            if !region_contains(pre[pre.len() - 1], a) {
                lemma_region_find_congruent_update_dead(pre.drop_last(), post.drop_last(), j, a);
            }
        }
    }
}

} // verus!
