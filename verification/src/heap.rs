//! The guest heap: a bump cursor plus a list of freed blocks that are reused
//! best-fit and merged with their neighbours when they are returned.

use vstd::prelude::*;

verus! {

/// A block `(address, size)` of guest memory.
pub type Block = (u32, u32);

pub open spec fn block_end(b: Block) -> int {
    b.0 + b.1
}

pub open spec fn block_covers(b: Block, a: int) -> bool {
    b.0 <= a < block_end(b)
}

pub open spec fn blocks_cover(bs: Seq<Block>, a: int) -> bool {
    exists|i: int| 0 <= i < bs.len() && #[trigger] block_covers(bs[i], a)
}

/// Two blocks share no byte.
pub open spec fn blocks_disjoint(x: Block, y: Block) -> bool {
    block_end(x) <= y.0 || block_end(y) <= x.0
}

/// Two blocks neither share nor touch a byte.
pub open spec fn blocks_apart(x: Block, y: Block) -> bool {
    block_end(x) < y.0 || block_end(y) < x.0
}

/// Free blocks: non-empty, inside the 32-bit space, pairwise apart.
pub open spec fn free_list_wf(fl: Seq<Block>) -> bool {
    &&& forall|i: int| #![trigger fl[i]] 0 <= i < fl.len() ==> fl[i].1 > 0 && block_end(fl[i]) <= u32::MAX
    &&& forall|i: int, j: int| #![trigger fl[i], fl[j]] 0 <= i < fl.len() && 0 <= j < fl.len() && i != j ==> blocks_apart(fl[i], fl[j])
}

/// Free blocks in increasing address order with a gap between neighbours.
pub open spec fn free_list_sorted(fl: Seq<Block>) -> bool {
    forall|i: int, j: int| #![trigger fl[i], fl[j]] 0 <= i < j < fl.len() ==> block_end(fl[i]) < fl[j].0
}

proof fn lemma_cover_push(s: Seq<Block>, b: Block, a: int)
    ensures
        blocks_cover(s.push(b), a) == (blocks_cover(s, a) || block_covers(b, a)),
{
    let t = s.push(b);
    if blocks_cover(t, a) {
        let i = choose|i: int| 0 <= i < t.len() && #[trigger] block_covers(t[i], a);
        if i < s.len() {
            assert(t[i] == s[i]);
        }
    }
    if blocks_cover(s, a) {
        let i = choose|i: int| 0 <= i < s.len() && #[trigger] block_covers(s[i], a);
        assert(t[i] == s[i]);
    }
    if block_covers(b, a) {
        assert(t[s.len() as int] == b);
    }
}

proof fn lemma_cover_insert(s: Seq<Block>, p: int, b: Block, a: int)
    requires
        0 <= p <= s.len(),
    ensures
        blocks_cover(s.insert(p, b), a) == (blocks_cover(s, a) || block_covers(b, a)),
{
    let t = s.insert(p, b);
    if blocks_cover(t, a) {
        let i = choose|i: int| 0 <= i < t.len() && #[trigger] block_covers(t[i], a);
        if i < p {
            assert(t[i] == s[i]);
        } else if i > p {
            assert(t[i] == s[i - 1]);
        }
    }
    if blocks_cover(s, a) {
        let i = choose|i: int| 0 <= i < s.len() && #[trigger] block_covers(s[i], a);
        if i < p {
            assert(t[i] == s[i]);
        } else {
            assert(t[i + 1] == s[i]);
        }
    }
    if block_covers(b, a) {
        assert(t[p] == b);
    }
}

proof fn lemma_cover_drop_last(s: Seq<Block>, a: int)
    requires
        s.len() > 0,
    ensures
        blocks_cover(s, a) == (blocks_cover(s.drop_last(), a) || block_covers(s.last(), a)),
{
    lemma_cover_push(s.drop_last(), s.last(), a);
    assert(s.drop_last().push(s.last()) =~= s);
}

/// Sorts well-formed free blocks by address.
fn sort_blocks(v: &Vec<Block>) -> (out: Vec<Block>)
    requires
        free_list_wf(v@),
    ensures
        free_list_wf(out@),
        free_list_sorted(out@),
        forall|a: int| blocks_cover(out@, a) == blocks_cover(v@, a),
        forall|b: Block| out@.contains(b) <==> v@.contains(b),
{
    let mut out: Vec<Block> = Vec::new();
    let mut i: usize = 0;
    while i < v.len()
        invariant
            0 <= i <= v@.len(),
            free_list_wf(v@),
            free_list_sorted(out@),
            forall|k: int| #![trigger out@[k]] 0 <= k < out@.len() ==> out@[k].1 > 0 && block_end(out@[k]) <= u32::MAX,
            forall|b: Block| out@.contains(b) <==> v@.subrange(0, i as int).contains(b),
            forall|a: int| blocks_cover(out@, a) == blocks_cover(v@.subrange(0, i as int), a),
        decreases v@.len() - i,
    {
        let b = v[i];
        let mut p: usize = 0;
        while p < out.len() && out[p].0 < b.0
            invariant
                0 <= p <= out@.len(),
                forall|k: int| 0 <= k < p ==> out@[k].0 < b.0,
            decreases out@.len() - p,
        {
            p = p + 1;
        }
        let ghost before = out@;
        out.insert(p, b);
        proof {
            let after = out@;
            let prefix = v@.subrange(0, i as int);
            assert(v@[i as int] == b);
            assert(v@.subrange(0, i + 1) =~= prefix.push(b));
            // every block already placed comes from v before index i, so it is apart from b
            assert forall|k: int| 0 <= k < before.len() implies #[trigger] blocks_apart(before[k], b) by {
                assert(before.contains(before[k]));
                assert(prefix.contains(before[k]));
                let j = choose|j: int| 0 <= j < prefix.len() && prefix[j] == before[k];
                assert(v@[j] == before[k]);
                assert(j != i);
            }
            assert forall|a: int| #![trigger after[a]] 0 <= a < after.len() implies after[a].1 > 0 && block_end(after[a]) <= u32::MAX by {
                if a < p {
                    assert(after[a] == before[a]);
                } else if a > p {
                    assert(after[a] == before[a - 1]);
                }
            }
            assert forall|x: int, y: int| #![trigger after[x], after[y]] 0 <= x < y < after.len() implies block_end(after[x]) < after[y].0 by {
                if y < p {
                    assert(after[x] == before[x] && after[y] == before[y]);
                } else if y == p {
                    assert(after[x] == before[x]);
                    assert(blocks_apart(before[x], b));
                    assert(before[x].0 < b.0);
                } else if x < p {
                    assert(after[x] == before[x] && after[y] == before[y - 1]);
                    if y - 1 > p {
                        assert(block_end(before[p as int]) < before[y - 1].0);
                    }
                    assert(blocks_apart(before[x], b));
                    assert(before[x].0 < b.0);
                    assert(block_end(before[x]) < before[p as int].0 || x == p);
                } else if x == p {
                    assert(after[y] == before[y - 1]);
                    assert(blocks_apart(before[y - 1], b));
                    assert(before[p as int].0 >= b.0);
                    if y - 1 > p {
                        assert(block_end(before[p as int]) < before[y - 1].0);
                    }
                } else {
                    assert(after[x] == before[x - 1] && after[y] == before[y - 1]);
                }
            }
            assert forall|c: Block| after.contains(c) <==> v@.subrange(0, i + 1).contains(c) by {
                if after.contains(c) {
                    let k = choose|k: int| 0 <= k < after.len() && after[k] == c;
                    if k < p {
                        assert(before[k] == c);
                        assert(before.contains(c));
                    } else if k > p {
                        assert(before[k - 1] == c);
                        assert(before.contains(c));
                    }
                    if c == b {
                        assert(v@.subrange(0, i + 1)[i as int] == b);
                    } else {
                        let j = choose|j: int| 0 <= j < prefix.len() && prefix[j] == c;
                        assert(v@.subrange(0, i + 1)[j] == c);
                    }
                }
                let s1 = v@.subrange(0, i + 1);
                if s1.contains(c) {
                    let j = choose|j: int| 0 <= j < s1.len() && s1[j] == c;
                    if j == i {
                        assert(after[p as int] == c);
                    } else {
                        assert(prefix[j] == c);
                        assert(prefix.contains(c));
                        assert(before.contains(c));
                        let k = choose|k: int| 0 <= k < before.len() && before[k] == c;
                        if k < p {
                            assert(after[k] == c);
                        } else {
                            assert(after[k + 1] == c);
                        }
                    }
                }
            }
            assert forall|a: int| blocks_cover(after, a) == blocks_cover(v@.subrange(0, i + 1), a) by {
                lemma_cover_insert(before, p as int, b, a);
                lemma_cover_push(prefix, b, a);
            }
        }
        i = i + 1;
    }
    proof {
        assert(v@.subrange(0, v@.len() as int) =~= v@);
        assert forall|x: int, y: int| #![trigger out@[x], out@[y]] 0 <= x < out@.len() && 0 <= y < out@.len() && x != y implies blocks_apart(out@[x], out@[y]) by {
            if x < y {
                assert(block_end(out@[x]) < out@[y].0);
            } else {
                assert(block_end(out@[y]) < out@[x].0);
            }
        }
    }
    out
}


/// Non-empty blocks inside the 32-bit space, ordered by start address; they
/// may touch or overlap.
pub open spec fn sorted_by_start(s: Seq<Block>) -> bool {
    &&& forall|i: int| #![trigger s[i]] 0 <= i < s.len() ==> s[i].1 > 0 && block_end(s[i]) <= u32::MAX
    &&& forall|i: int, j: int| #![trigger s[i], s[j]] 0 <= i < j < s.len() ==> s[i].0 <= s[j].0
}

/// Joins the touching or overlapping blocks of an address-ordered list.
fn merge_blocks(sorted: &Vec<Block>) -> (out: Vec<Block>)
    requires
        sorted_by_start(sorted@),
    ensures
        free_list_wf(out@),
        free_list_sorted(out@),
        forall|a: int| blocks_cover(out@, a) == blocks_cover(sorted@, a),
{
    let mut out: Vec<Block> = Vec::new();
    let mut i: usize = 0;
    while i < sorted.len()
        invariant
            0 <= i <= sorted@.len(),
            sorted_by_start(sorted@),
            free_list_sorted(out@),
            forall|k: int| #![trigger out@[k]] 0 <= k < out@.len() ==> out@[k].1 > 0 && block_end(out@[k]) <= u32::MAX,
            out@.len() == 0 <==> i == 0,
            i > 0 ==> out@.last().0 <= sorted@[i - 1].0,
            forall|a: int| blocks_cover(out@, a) == blocks_cover(sorted@.subrange(0, i as int), a),
        decreases sorted@.len() - i,
    {
        let b = sorted[i];
        let ghost before = out@;
        let n = out.len();
        proof {
            assert(sorted@[i as int] == b);
            assert(sorted@.subrange(0, i + 1) =~= sorted@.subrange(0, i as int).push(b));
            if i > 0 {
                assert(sorted@[i - 1].0 <= b.0);
            }
        }
        if n > 0 && out[n - 1].0.saturating_add(out[n - 1].1) >= b.0 {
            let last = out[n - 1];
            let prev_end = last.0.saturating_add(last.1);
            let this_end = b.0.saturating_add(b.1);
            let new_end = if this_end >= prev_end { this_end } else { prev_end };
            out.set(n - 1, (last.0, new_end.saturating_sub(last.0)));
            proof {
                let after = out@;
                assert(before.last() == last);
                assert(last.0 <= b.0);
                assert(after =~= before.drop_last().push((last.0, (new_end - last.0) as u32)));
                assert forall|k: int| #![trigger after[k]] 0 <= k < after.len() implies after[k].1 > 0 && block_end(after[k]) <= u32::MAX by {
                    if k < n - 1 {
                        assert(after[k] == before[k]);
                    }
                }
                assert forall|x: int, y: int| #![trigger after[x], after[y]] 0 <= x < y < after.len() implies block_end(after[x]) < after[y].0 by {
                    assert(after[x] == before[x]);
                    if y < n - 1 {
                        assert(after[y] == before[y]);
                    } else {
                        assert(block_end(before[x]) < before[n - 1].0);
                    }
                }
                assert forall|a: int| blocks_cover(after, a) == blocks_cover(sorted@.subrange(0, i + 1), a) by {
                    lemma_cover_drop_last(after, a);
                    lemma_cover_drop_last(before, a);
                    assert(after.drop_last() =~= before.drop_last());
                    lemma_cover_push(sorted@.subrange(0, i as int), b, a);
                }
            }
        } else {
            out.push(b);
            proof {
                let after = out@;
                assert forall|k: int| #![trigger after[k]] 0 <= k < after.len() implies after[k].1 > 0 && block_end(after[k]) <= u32::MAX by {
                    if k < n {
                        assert(after[k] == before[k]);
                    }
                }
                assert forall|x: int, y: int| #![trigger after[x], after[y]] 0 <= x < y < after.len() implies block_end(after[x]) < after[y].0 by {
                    assert(after[x] == before[x]);
                    if y < n {
                        assert(after[y] == before[y]);
                    } else {
                        assert(block_end(before.last()) < b.0);
                        if x < n - 1 {
                            assert(block_end(before[x]) < before[n - 1].0);
                        }
                    }
                }
                assert forall|a: int| blocks_cover(after, a) == blocks_cover(sorted@.subrange(0, i + 1), a) by {
                    lemma_cover_push(before, b, a);
                    lemma_cover_push(sorted@.subrange(0, i as int), b, a);
                }
            }
        }
        i = i + 1;
    }
    proof {
        assert(sorted@.subrange(0, sorted@.len() as int) =~= sorted@);
        assert forall|x: int, y: int| #![trigger out@[x], out@[y]] 0 <= x < out@.len() && 0 <= y < out@.len() && x != y implies blocks_apart(out@[x], out@[y]) by {
            if x < y {
                assert(block_end(out@[x]) < out@[y].0);
            } else {
                assert(block_end(out@[y]) < out@[x].0);
            }
        }
    }
    out
}

/// Returns a block to the free list, joined with every free block it
/// touches or overlaps. Zero-sized blocks are ignored. The result is
/// ordered by address.
pub fn push_free_block(free_list: &mut Vec<Block>, addr: u32, size: u32)
    requires
        free_list_wf(old(free_list)@),
        addr + size <= u32::MAX,
    ensures
        size == 0 ==> final(free_list)@ == old(free_list)@,
        size > 0 ==> free_list_wf(final(free_list)@) && free_list_sorted(final(free_list)@),
        forall|a: int| blocks_cover(final(free_list)@, a) == (blocks_cover(old(free_list)@, a) || block_covers((addr, size), a)),
{
    if size == 0 {
        return;
    }
    let sorted = sort_blocks(free_list);
    let b = (addr, size);
    let mut p: usize = 0;
    while p < sorted.len() && sorted[p].0 < addr
        invariant
            0 <= p <= sorted@.len(),
            forall|k: int| 0 <= k < p ==> sorted@[k].0 < addr,
        decreases sorted@.len() - p,
    {
        p = p + 1;
    }
    let mut with_new = sorted;
    let ghost s0 = with_new@;
    with_new.insert(p, b);
    proof {
        let t = with_new@;
        assert forall|k: int| #![trigger t[k]] 0 <= k < t.len() implies t[k].1 > 0 && block_end(t[k]) <= u32::MAX by {
            if k < p {
                assert(t[k] == s0[k]);
            } else if k > p {
                assert(t[k] == s0[k - 1]);
            }
        }
        assert forall|x: int, y: int| #![trigger t[x], t[y]] 0 <= x < y < t.len() implies t[x].0 <= t[y].0 by {
            if y < p {
                assert(t[x] == s0[x] && t[y] == s0[y]);
                assert(block_end(s0[x]) < s0[y].0);
            } else if y == p {
                assert(t[x] == s0[x]);
            } else if x < p {
                assert(t[x] == s0[x] && t[y] == s0[y - 1]);
                assert(s0[p as int].0 >= addr);
                if y - 1 > p {
                    assert(block_end(s0[p as int]) < s0[y - 1].0);
                }
            } else if x == p {
                assert(t[y] == s0[y - 1]);
                assert(s0[p as int].0 >= addr);
                if y - 1 > p {
                    assert(block_end(s0[p as int]) < s0[y - 1].0);
                }
            } else {
                assert(t[x] == s0[x - 1] && t[y] == s0[y - 1]);
                assert(block_end(s0[x - 1]) < s0[y - 1].0);
            }
        }
    }
    let merged = merge_blocks(&with_new);
    proof {
        assert forall|a: int| blocks_cover(merged@, a) == (blocks_cover(old(free_list)@, a) || block_covers((addr, size), a)) by {
            lemma_cover_insert(s0, p as int, b, a);
        }
    }
    *free_list = merged;
}


/// Requested size rounded up to a multiple of 4 (at least 4); `None` when it
/// does not fit in 32 bits.
pub open spec fn spec_align_heap_size(size: usize) -> Option<u32> {
    let base: int = if size == 0 { 1 } else { size as int };
    if base > u32::MAX || base + 3 > u32::MAX {
        None
    } else {
        Some((((base + 3) / 4) * 4) as u32)
    }
}

pub fn align_heap_size(size: usize) -> (r: Option<u32>)
    ensures
        r == spec_align_heap_size(size),
{
    let base_usize: usize = if size == 0 { 1 } else { size };
    if base_usize > u32::MAX as usize {
        return None;
    }
    let base = base_usize as u32;
    if base > u32::MAX - 3 {
        return None;
    }
    let v = base + 3;
    let r = v & !3u32;
    proof {
        assert(v & !3u32 == (v / 4) * 4) by (bit_vector);
    }
    Some(r)
}

/// Index `i` holds the smallest free block of at least `need` bytes, the
/// first one among blocks of that size.
pub open spec fn is_best_fit(fl: Seq<Block>, need: u32, i: int) -> bool {
    &&& 0 <= i < fl.len()
    &&& fl[i].1 >= need
    &&& forall|j: int| 0 <= j < fl.len() && fl[j].1 >= need ==> fl[i].1 <= #[trigger] fl[j].1
    &&& forall|j: int| 0 <= j < i && fl[j].1 >= need ==> fl[i].1 < #[trigger] fl[j].1
}

/// Some free block holds at least `need` bytes.
pub open spec fn has_fit(fl: Seq<Block>, need: u32) -> bool {
    exists|j: int| 0 <= j < fl.len() && #[trigger] fl[j].1 >= need
}

/// Bookkeeping of the guest heap between `base` and `limit`.
pub struct GuestHeap {
    base: u32,
    limit: u64,
    cursor: u32,
    allocations: Vec<Block>,
    free_list: Vec<Block>,
}

impl GuestHeap {
    pub closed spec fn spec_base(&self) -> u32 {
        self.base
    }

    pub closed spec fn spec_limit(&self) -> u64 {
        self.limit
    }

    /// First never-used address.
    pub closed spec fn spec_cursor(&self) -> u32 {
        self.cursor
    }

    /// Live allocations.
    pub closed spec fn spec_allocations(&self) -> Seq<Block> {
        self.allocations@
    }

    /// Free blocks, in the order the best-fit search visits them.
    pub closed spec fn spec_free_list(&self) -> Seq<Block> {
        self.free_list@
    }

    /// The size of the live allocation starting at `addr`.
    pub open spec fn size_of(&self, addr: u32) -> Option<u32> {
        if exists|i: int| 0 <= i < self.spec_allocations().len() && #[trigger] self.spec_allocations()[i].0 == addr {
            let i = choose|i: int| 0 <= i < self.spec_allocations().len() && #[trigger] self.spec_allocations()[i].0 == addr;
            Some(self.spec_allocations()[i].1)
        } else {
            None
        }
    }

    /// Live allocations and free blocks lie between `base` and the cursor,
    /// are non-empty and never share a byte; free blocks never touch.
    pub open spec fn wf(&self) -> bool {
        let al = self.spec_allocations();
        let fl = self.spec_free_list();
        &&& self.spec_base() <= self.spec_cursor()
        &&& self.spec_cursor() as int <= self.spec_limit() || self.spec_cursor() == self.spec_base()
        &&& free_list_wf(fl)
        &&& forall|i: int| #![trigger fl[i]] 0 <= i < fl.len() ==> self.spec_base() <= fl[i].0 && block_end(fl[i]) <= self.spec_cursor()
        &&& forall|i: int| #![trigger al[i]] 0 <= i < al.len() ==> al[i].1 > 0 && self.spec_base() <= al[i].0 && block_end(al[i]) <= self.spec_cursor()
        &&& forall|i: int, j: int| #![trigger al[i], al[j]] 0 <= i < al.len() && 0 <= j < al.len() && i != j ==> blocks_disjoint(al[i], al[j])
        &&& forall|i: int, j: int| #![trigger al[i], fl[j]] 0 <= i < al.len() && 0 <= j < fl.len() ==> blocks_disjoint(al[i], fl[j])
    }

    /// An empty heap spanning `size` bytes from `base`.
    pub fn new(base: u32, size: u32) -> (h: GuestHeap)
        ensures
            h.wf(),
            h.spec_base() == base,
            h.spec_limit() == base as u64 + size as u64,
            h.spec_cursor() == base,
            h.spec_allocations().len() == 0,
            h.spec_free_list().len() == 0,
    {
        GuestHeap { base, limit: base as u64 + size as u64, cursor: base, allocations: Vec::new(), free_list: Vec::new() }
    }

    fn find_allocation(&self, addr: u32) -> (r: Option<usize>)
        requires
            self.wf(),
        ensures
            match r {
                Some(i) => i < self.spec_allocations().len() && self.spec_allocations()[i as int].0 == addr,
                None => forall|i: int| 0 <= i < self.spec_allocations().len() ==> #[trigger] self.spec_allocations()[i].0 != addr,
            },
            r is Some ==> self.size_of(addr) == Some(self.spec_allocations()[r->0 as int].1),
            r is None ==> self.size_of(addr) is None,
    {
        let mut i: usize = 0;
        while i < self.allocations.len()
            invariant
                0 <= i <= self.allocations@.len(),
                self.wf(),
                forall|k: int| 0 <= k < i ==> #[trigger] self.allocations@[k].0 != addr,
            decreases self.allocations@.len() - i,
        {
            if self.allocations[i].0 == addr {
                proof {
                    let al = self.spec_allocations();
                    assert(al[i as int].0 == addr);
                    let c = choose|c: int| 0 <= c < al.len() && #[trigger] al[c].0 == addr;
                    if c != i {
                        assert(blocks_disjoint(al[c], al[i as int]));
                    }
                }
                return Some(i);
            }
            i = i + 1;
        }
        None
    }

    /// Size of the live allocation that starts at `addr`.
    pub fn heap_block_size(&self, addr: u32) -> (r: Option<u32>)
        requires
            self.wf(),
        ensures
            r == self.size_of(addr),
    {
        match self.find_allocation(addr) {
            Some(i) => Some(self.allocations[i].1),
            None => None,
        }
    }

    /// Allocates `size` bytes (rounded up to a multiple of 4): from the
    /// smallest free block that fits, whose rest stays free, or else from the
    /// cursor while it stays within the heap.
    pub fn alloc_heap_block(&mut self, size: usize) -> (r: Option<u32>)
        requires
            old(self).wf(),
        ensures
            final(self).wf(),
            final(self).spec_base() == old(self).spec_base(),
            final(self).spec_limit() == old(self).spec_limit(),
            r is None ==> *final(self) == *old(self),
            r is None <==> (spec_align_heap_size(size) is None || (!has_fit(old(self).spec_free_list(), spec_align_heap_size(size)->0)
                && (old(self).spec_cursor() + spec_align_heap_size(size)->0 > old(self).spec_limit()
                    || old(self).spec_cursor() + spec_align_heap_size(size)->0 > u32::MAX))),
            r matches Some(addr) ==> {
                let n = spec_align_heap_size(size)->0;
                &&& old(self).size_of(addr) is None
                &&& final(self).size_of(addr) == Some(n)
                &&& forall|a: u32| a != addr ==> #[trigger] final(self).size_of(a) == old(self).size_of(a)
                &&& forall|i: int| 0 <= i < old(self).spec_allocations().len() ==> blocks_disjoint(#[trigger] old(self).spec_allocations()[i], (addr, n))
                &&& if has_fit(old(self).spec_free_list(), n) {
                    &&& exists|i: int| is_best_fit(old(self).spec_free_list(), n, i) && old(self).spec_free_list()[i].0 == addr
                    &&& final(self).spec_cursor() == old(self).spec_cursor()
                    &&& forall|a: int| blocks_cover(final(self).spec_free_list(), a) == (blocks_cover(old(self).spec_free_list(), a) && !block_covers((addr, n), a))
                } else {
                    &&& addr == old(self).spec_cursor()
                    &&& final(self).spec_cursor() == addr + n
                    &&& final(self).spec_free_list() == old(self).spec_free_list()
                }
            },
    {
        let aligned = match align_heap_size(size) {
            Some(a) => a,
            None => return None,
        };
        let mut best: Option<usize> = None;
        let mut i: usize = 0;
        while i < self.free_list.len()
            invariant
                0 <= i <= self.free_list@.len(),
                match best {
                    None => forall|j: int| 0 <= j < i ==> #[trigger] self.free_list@[j].1 < aligned,
                    Some(b) => b < i && self.free_list@[b as int].1 >= aligned
                        && (forall|j: int| 0 <= j < i && self.free_list@[j].1 >= aligned ==> self.free_list@[b as int].1 <= #[trigger] self.free_list@[j].1)
                        && (forall|j: int| 0 <= j < b && self.free_list@[j].1 >= aligned ==> self.free_list@[b as int].1 < #[trigger] self.free_list@[j].1),
                },
            decreases self.free_list@.len() - i,
        {
            let s = self.free_list[i].1;
            if s >= aligned {
                match best {
                    None => {
                        best = Some(i);
                    },
                    Some(b) => {
                        if s < self.free_list[b].1 {
                            best = Some(i);
                        }
                    },
                }
            }
            i = i + 1;
        }
        let ghost old_heap = *self;
        let ghost al = self.allocations@;
        let ghost fl = self.free_list@;
        match best {
            Some(idx) => {
                proof {
                    assert(is_best_fit(fl, aligned, idx as int));
                    assert(has_fit(fl, aligned));
                }
                let (addr, block_size) = self.free_list.swap_remove(idx);
                let ghost fl1 = self.free_list@;
                proof {
                    let blk = fl[idx as int];
                    assert forall|k: int| 0 <= k < fl1.len() implies #[trigger] fl1[k] == fl[k] || (k == idx && fl1[k] == fl.last() && idx < fl.len() - 1) by {}
                    assert(free_list_wf(fl1)) by {
                        assert forall|x: int, y: int| #![trigger fl1[x], fl1[y]] 0 <= x < fl1.len() && 0 <= y < fl1.len() && x != y implies blocks_apart(fl1[x], fl1[y]) by {
                            let ox = if x == idx { fl.len() - 1 } else { x };
                            let oy = if y == idx { fl.len() - 1 } else { y };
                            assert(fl1[x] == fl[ox] && fl1[y] == fl[oy]);
                        }
                        assert forall|x: int| #![trigger fl1[x]] 0 <= x < fl1.len() implies fl1[x].1 > 0 && block_end(fl1[x]) <= u32::MAX by {
                            let ox = if x == idx { fl.len() - 1 } else { x };
                            assert(fl1[x] == fl[ox]);
                        }
                    }
                    assert forall|k: int| 0 <= k < fl1.len() implies blocks_disjoint(#[trigger] fl1[k], ((addr + aligned) as u32, (block_size - aligned) as u32)) by {
                        let ok = if k == idx { fl.len() - 1 } else { k };
                        assert(fl1[k] == fl[ok]);
                        assert(ok != idx);
                        assert(blocks_apart(fl[ok], blk));
                    }
                }
                if block_size > aligned {
                    push_free_block(&mut self.free_list, addr + aligned, block_size - aligned);
                }
                self.allocations.push((addr, aligned));
                proof {
                    let blk = fl[idx as int];
                    let nfl = self.free_list@;
                    let nal = self.allocations@;
                    assert(nal == al.push((addr, aligned)));
                    // free coverage
                    assert forall|a: int| blocks_cover(fl1, a) == (blocks_cover(fl, a) && !block_covers(blk, a)) by {
                        if blocks_cover(fl1, a) {
                            let k = choose|k: int| 0 <= k < fl1.len() && #[trigger] block_covers(fl1[k], a);
                            let ok = if k == idx { fl.len() - 1 } else { k };
                            assert(fl1[k] == fl[ok]);
                            assert(block_covers(fl[ok], a));
                            assert(ok != idx);
                            assert(blocks_apart(fl[ok], blk));
                        }
                        if blocks_cover(fl, a) && !block_covers(blk, a) {
                            let k = choose|k: int| 0 <= k < fl.len() && #[trigger] block_covers(fl[k], a);
                            assert(k != idx);
                            if k == fl.len() - 1 {
                                assert(fl1[idx as int] == fl[k]);
                            } else {
                                assert(fl1[k] == fl[k]);
                            }
                        }
                    }
                    assert forall|a: int| blocks_cover(nfl, a) == (blocks_cover(fl, a) && !block_covers((addr, aligned), a)) by {
                        if block_size <= aligned {
                            assert(nfl == fl1);
                        }
                        if block_covers(blk, a) {
                            assert(block_covers(fl[idx as int], a));
                            assert(blocks_cover(fl, a));
                        }
                    }
                    // the new allocation sits inside the removed free block
                    assert forall|i: int| 0 <= i < al.len() implies blocks_disjoint(#[trigger] al[i], (addr, aligned)) by {
                        assert(blocks_disjoint(al[i], blk));
                    }
                    // disjointness of allocations and free blocks afterwards
                    assert forall|x: int, y: int| #![trigger nal[x], nfl[y]] 0 <= x < nal.len() && 0 <= y < nfl.len() implies blocks_disjoint(nal[x], nfl[y]) by {
                        let f = nfl[y];
                        assert(block_covers(f, f.0 as int));
                        if !blocks_disjoint(nal[x], f) {
                            // some address lies in both; it is free after, so it was free before and outside the new block
                            let a: int = if nal[x].0 >= f.0 { nal[x].0 as int } else { f.0 as int };
                            assert(block_covers(nal[x], a) && block_covers(f, a));
                            assert(blocks_cover(nfl, a));
                            assert(blocks_cover(fl, a));
                            let k = choose|k: int| 0 <= k < fl.len() && #[trigger] block_covers(fl[k], a);
                            if x < al.len() {
                                assert(nal[x] == al[x]);
                                assert(blocks_disjoint(al[x], fl[k]));
                            }
                        }
                    }
                    assert forall|i: int| #![trigger nfl[i]] 0 <= i < nfl.len() implies self.base <= nfl[i].0 && block_end(nfl[i]) <= self.cursor by {
                        let f = nfl[i];
                        assert(block_covers(f, f.0 as int));
                        assert(blocks_cover(nfl, f.0 as int));
                        assert(blocks_cover(fl, f.0 as int));
                        let k = choose|k: int| 0 <= k < fl.len() && #[trigger] block_covers(fl[k], f.0 as int);
                        let last = block_end(f) - 1;
                        assert(block_covers(f, last));
                        assert(blocks_cover(nfl, last));
                        assert(blocks_cover(fl, last));
                        let k2 = choose|k2: int| 0 <= k2 < fl.len() && #[trigger] block_covers(fl[k2], last);
                    }
                    assert forall|x: int, y: int| #![trigger nal[x], nal[y]] 0 <= x < nal.len() && 0 <= y < nal.len() && x != y implies blocks_disjoint(nal[x], nal[y]) by {
                        if x < al.len() && y < al.len() {
                            assert(nal[x] == al[x] && nal[y] == al[y]);
                        } else if x < al.len() {
                            assert(blocks_disjoint(al[x], blk));
                        } else {
                            assert(blocks_disjoint(al[y], blk));
                        }
                    }
                    assert(forall|i: int| 0 <= i < al.len() ==> #[trigger] al[i].0 != addr) by {
                        assert forall|i: int| 0 <= i < al.len() implies #[trigger] al[i].0 != addr by {
                            assert(blocks_disjoint(al[i], blk));
                        }
                    }
                    assert(nal[al.len() as int] == (addr, aligned));
                    assert forall|a: u32| a != addr implies #[trigger] self.size_of(a) == old_heap.size_of(a) by {
                        if exists|i: int| 0 <= i < nal.len() && #[trigger] nal[i].0 == a {
                            let i = choose|i: int| 0 <= i < nal.len() && #[trigger] nal[i].0 == a;
                            assert(i < al.len());
                            assert(al[i].0 == a);
                        }
                        if exists|i: int| 0 <= i < al.len() && #[trigger] al[i].0 == a {
                            let i = choose|i: int| 0 <= i < al.len() && #[trigger] al[i].0 == a;
                            assert(nal[i].0 == a);
                            let c = choose|c: int| 0 <= c < nal.len() && #[trigger] nal[c].0 == a;
                            if c != i {
                                assert(blocks_disjoint(nal[c], nal[i]));
                            }
                            let c2 = choose|c2: int| 0 <= c2 < al.len() && #[trigger] al[c2].0 == a;
                            if c2 != i {
                                assert(blocks_disjoint(al[c2], al[i]));
                            }
                        }
                    }
                    let c = choose|c: int| 0 <= c < nal.len() && #[trigger] nal[c].0 == addr;
                    if c != al.len() {
                        assert(blocks_disjoint(nal[c], nal[al.len() as int]));
                    }
                }
                Some(addr)
            },
            None => {
                proof {
                    assert(!has_fit(fl, aligned));
                }
                let addr = self.cursor;
                if addr as u64 + aligned as u64 > u32::MAX as u64 {
                    return None;
                }
                let end = addr + aligned;
                if (end as u64) > self.limit {
                    return None;
                }
                self.cursor = end;
                self.allocations.push((addr, aligned));
                proof {
                    let nal = self.allocations@;
                    assert(nal == al.push((addr, aligned)));
                    assert forall|i: int| 0 <= i < al.len() implies blocks_disjoint(#[trigger] al[i], (addr, aligned)) by {}
                    assert forall|x: int, y: int| #![trigger nal[x], nal[y]] 0 <= x < nal.len() && 0 <= y < nal.len() && x != y implies blocks_disjoint(nal[x], nal[y]) by {
                        if x < al.len() && y < al.len() {
                            assert(nal[x] == al[x] && nal[y] == al[y]);
                        }
                    }
                    assert forall|x: int, y: int| #![trigger nal[x], fl[y]] 0 <= x < nal.len() && 0 <= y < fl.len() implies blocks_disjoint(nal[x], fl[y]) by {
                        if x < al.len() {
                            assert(nal[x] == al[x]);
                        }
                    }
                    assert(forall|i: int| 0 <= i < al.len() ==> #[trigger] al[i].0 != addr);
                    assert(nal[al.len() as int] == (addr, aligned));
                    assert forall|a: u32| a != addr implies #[trigger] self.size_of(a) == old_heap.size_of(a) by {
                        if exists|i: int| 0 <= i < nal.len() && #[trigger] nal[i].0 == a {
                            let i = choose|i: int| 0 <= i < nal.len() && #[trigger] nal[i].0 == a;
                            assert(i < al.len());
                            assert(al[i].0 == a);
                        }
                        if exists|i: int| 0 <= i < al.len() && #[trigger] al[i].0 == a {
                            let i = choose|i: int| 0 <= i < al.len() && #[trigger] al[i].0 == a;
                            assert(nal[i].0 == a);
                            let c = choose|c: int| 0 <= c < nal.len() && #[trigger] nal[c].0 == a;
                            if c != i {
                                assert(blocks_disjoint(nal[c], nal[i]));
                            }
                            let c2 = choose|c2: int| 0 <= c2 < al.len() && #[trigger] al[c2].0 == a;
                            if c2 != i {
                                assert(blocks_disjoint(al[c2], al[i]));
                            }
                        }
                    }
                    let c = choose|c: int| 0 <= c < nal.len() && #[trigger] nal[c].0 == addr;
                    if c != al.len() {
                        assert(blocks_disjoint(nal[c], nal[al.len() as int]));
                    }
                }
                Some(addr)
            },
        }
    }

    /// Returns the live allocation at `addr` to the free list; `false` when
    /// `addr` is below the heap or starts no live allocation.
    pub fn free_heap_block(&mut self, addr: u32) -> (r: bool)
        requires
            old(self).wf(),
        ensures
            final(self).wf(),
            r == (addr >= old(self).spec_base() && old(self).size_of(addr) is Some),
            !r ==> *final(self) == *old(self),
            final(self).size_of(addr) is None,
            final(self).spec_base() == old(self).spec_base(),
            final(self).spec_limit() == old(self).spec_limit(),
            final(self).spec_cursor() == old(self).spec_cursor(),
            r ==> {
                &&& final(self).size_of(addr) is None
                &&& forall|a: u32| a != addr ==> #[trigger] final(self).size_of(a) == old(self).size_of(a)
                &&& forall|a: int| blocks_cover(final(self).spec_free_list(), a)
                    == (blocks_cover(old(self).spec_free_list(), a) || block_covers((addr, old(self).size_of(addr)->0), a))
            },
    {
        if addr < self.base {
            proof {
                let al = self.allocations@;
                if exists|i: int| 0 <= i < al.len() && #[trigger] al[i].0 == addr {
                    let i = choose|i: int| 0 <= i < al.len() && #[trigger] al[i].0 == addr;
                }
            }
            return false;
        }
        let i = match self.find_allocation(addr) {
            Some(i) => i,
            None => return false,
        };
        let ghost old_heap = *self;
        let ghost al = self.allocations@;
        let ghost fl = self.free_list@;
        let (baddr, size) = self.allocations.remove(i);
        proof {
            assert(baddr == addr);
            assert(al[i as int] == (addr, size));
            assert forall|k: int| 0 <= k < fl.len() implies blocks_disjoint(#[trigger] fl[k], (addr, size)) by {
                assert(blocks_disjoint(al[i as int], fl[k]));
            }
        }
        push_free_block(&mut self.free_list, addr, size);
        proof {
            let nal = self.allocations@;
            let nfl = self.free_list@;
            let blk = (addr, size);
            assert(nal == al.remove(i as int));
            assert forall|k: int| 0 <= k < nal.len() implies #[trigger] nal[k] == al[if k < i { k } else { k + 1 }] by {}
            assert forall|x: int, y: int| #![trigger nal[x], nal[y]] 0 <= x < nal.len() && 0 <= y < nal.len() && x != y implies blocks_disjoint(nal[x], nal[y]) by {
                let ox = if x < i { x } else { x + 1 };
                let oy = if y < i { y } else { y + 1 };
                assert(nal[x] == al[ox] && nal[y] == al[oy]);
            }
            assert forall|k: int| #![trigger nal[k]] 0 <= k < nal.len() implies nal[k].1 > 0 && self.base <= nal[k].0 && block_end(nal[k]) <= self.cursor by {
                let ok = if k < i { k } else { k + 1 };
                assert(nal[k] == al[ok]);
            }
            assert forall|k: int| #![trigger nfl[k]] 0 <= k < nfl.len() implies self.base <= nfl[k].0 && block_end(nfl[k]) <= self.cursor by {
                let f = nfl[k];
                assert(block_covers(f, f.0 as int));
                assert(blocks_cover(nfl, f.0 as int));
                if blocks_cover(fl, f.0 as int) {
                    let j = choose|j: int| 0 <= j < fl.len() && #[trigger] block_covers(fl[j], f.0 as int);
                }
                let last = block_end(f) - 1;
                assert(block_covers(f, last));
                assert(blocks_cover(nfl, last));
                if blocks_cover(fl, last) {
                    let j = choose|j: int| 0 <= j < fl.len() && #[trigger] block_covers(fl[j], last);
                }
            }
            assert forall|x: int, y: int| #![trigger nal[x], nfl[y]] 0 <= x < nal.len() && 0 <= y < nfl.len() implies blocks_disjoint(nal[x], nfl[y]) by {
                let ox = if x < i { x } else { x + 1 };
                assert(nal[x] == al[ox]);
                assert(ox != i);
                let f = nfl[y];
                if !blocks_disjoint(nal[x], f) {
                    let a: int = if nal[x].0 >= f.0 { nal[x].0 as int } else { f.0 as int };
                    assert(block_covers(nal[x], a) && block_covers(f, a));
                    assert(blocks_cover(nfl, a));
                    if blocks_cover(fl, a) {
                        let j = choose|j: int| 0 <= j < fl.len() && #[trigger] block_covers(fl[j], a);
                        assert(blocks_disjoint(al[ox], fl[j]));
                    } else {
                        assert(block_covers(blk, a));
                        assert(blocks_disjoint(al[ox], al[i as int]));
                    }
                }
            }
            assert(old_heap.size_of(addr) == Some(size));
            if exists|k: int| 0 <= k < nal.len() && #[trigger] nal[k].0 == addr {
                let k = choose|k: int| 0 <= k < nal.len() && #[trigger] nal[k].0 == addr;
                let ok = if k < i { k } else { k + 1 };
                assert(nal[k] == al[ok]);
                assert(blocks_disjoint(al[ok], al[i as int]));
            }
            assert forall|a: u32| a != addr implies #[trigger] self.size_of(a) == old_heap.size_of(a) by {
                if exists|k: int| 0 <= k < al.len() && #[trigger] al[k].0 == a {
                    let k = choose|k: int| 0 <= k < al.len() && #[trigger] al[k].0 == a;
                    assert(k != i);
                    let nk = if k < i { k } else { k - 1 };
                    assert(nal[nk] == al[k]);
                    assert(nal[nk].0 == a);
                    let c = choose|c: int| 0 <= c < self.spec_allocations().len() && #[trigger] self.spec_allocations()[c].0 == a;
                    let oc = if c < i { c } else { c + 1 };
                    assert(nal[c] == al[oc]);
                    if oc != k {
                        assert(blocks_disjoint(al[oc], al[k]));
                    }
                    assert(self.size_of(a) == Some(nal[c].1));
                    assert(old_heap.size_of(a) == Some(al[k].1));
                } else {
                    if exists|k: int| 0 <= k < nal.len() && #[trigger] nal[k].0 == a {
                        let k = choose|k: int| 0 <= k < nal.len() && #[trigger] nal[k].0 == a;
                        let ok = if k < i { k } else { k + 1 };
                        assert(nal[k] == al[ok]);
                        assert(al[ok].0 == a);
                    }
                }
            }
        }
        true
    }

    /// The live allocation that holds every byte of `[addr, addr + max(size, 1))`,
    /// if the range lies in the 32-bit space and some allocation holds it.
    pub fn heap_allocation_for_range(&self, addr: u64, size: usize) -> (r: Option<Block>)
        requires
            self.wf(),
        ensures
            ({
                let len: int = if size == 0 { 1 } else { size as int };
                let fits = addr <= u32::MAX && len <= u32::MAX && addr + len - 1 <= u32::MAX;
                match r {
                    Some(b) => fits && self.spec_allocations().contains(b) && b.0 <= addr && addr + len <= block_end(b),
                    None => !fits || forall|i: int| 0 <= i < self.spec_allocations().len()
                        ==> !(#[trigger] self.spec_allocations()[i].0 <= addr && addr + len <= block_end(self.spec_allocations()[i])),
                }
            }),
    {
        if addr > u32::MAX as u64 {
            return None;
        }
        let start = addr as u32;
        let len_usize: usize = if size == 0 { 1 } else { size };
        if len_usize > u32::MAX as usize {
            return None;
        }
        let len = len_usize as u32;
        let end = match start.checked_add(len - 1) {
            Some(e) => e,
            None => return None,
        };
        let mut i: usize = 0;
        while i < self.allocations.len()
            invariant
                0 <= i <= self.allocations@.len(),
                self.wf(),
                start == addr,
                len as int == (if size == 0 { 1 } else { size as int }),
                end == addr + len - 1,
                forall|k: int| 0 <= k < i ==> !(#[trigger] self.allocations@[k].0 <= addr && addr + len <= block_end(self.allocations@[k])),
            decreases self.allocations@.len() - i,
        {
            let (baddr, bsize) = self.allocations[i];
            proof {
                assert(self.allocations@[i as int].1 > 0);
            }
            match baddr.checked_add(bsize - 1) {
                Some(bend) => {
                    if start >= baddr && end <= bend {
                        proof {
                            assert(self.spec_allocations()[i as int] == (baddr, bsize));
                            assert(self.spec_allocations().contains((baddr, bsize)));
                            assert(baddr <= addr);
                            assert(addr + len <= block_end((baddr, bsize)));
                        }
                        return Some((baddr, bsize));
                    }
                },
                None => {},
            }
            i = i + 1;
        }
        None
    }
}

/// Two different live allocations never share a byte.
pub proof fn lemma_live_allocations_disjoint(h: &GuestHeap, a: u32, b: u32)
    requires
        h.wf(),
        a != b,
        h.size_of(a) is Some,
        h.size_of(b) is Some,
    ensures
        blocks_disjoint((a, h.size_of(a)->0), (b, h.size_of(b)->0)),
{
    let al = h.spec_allocations();
    let i = choose|i: int| 0 <= i < al.len() && #[trigger] al[i].0 == a;
    let j = choose|j: int| 0 <= j < al.len() && #[trigger] al[j].0 == b;
    assert(blocks_disjoint(al[i], al[j]));
}

} // verus!
