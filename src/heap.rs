//! An arena allocator with a byte budget: allocate, deallocate, grow and
//! shrink blocks, and read, write or copy their bytes.
//!
//! A block is addressed by its handle (its number, counted from one).
//! Freed space is not reused.
use crate::layout::{Layout, LayoutView};
use crate::ptr::NonNull;
use vstd::prelude::*;

verus! {

struct Block {
    start: usize,
    layout: Layout,
    live: bool,
}

/// The allocator could not provide a block of `layout`.
#[derive(Debug, Clone, Copy, PartialEq, Eq)]
pub struct AllocError {
    layout: Layout,
}

impl AllocError {
    pub closed spec fn spec_layout(&self) -> Layout {
        self.layout
    }

    /// The layout that was asked for.
    pub fn layout(&self) -> (r: Layout)
        ensures
            r == self.spec_layout(),
    {
        self.layout
    }
}

/// Sum of the sizes of the live blocks.
spec fn live_sum(blocks: Seq<Block>) -> nat
    decreases blocks.len(),
{
    if blocks.len() == 0 {
        0
    } else {
        live_sum(blocks.drop_last()) + if blocks.last().live {
            blocks.last().layout@.size
        } else {
            0
        }
    }
}

proof fn lemma_live_sum_release(blocks: Seq<Block>, i: int, b: Block)
    requires
        0 <= i < blocks.len(),
        blocks[i].live,
        !b.live,
    ensures
        live_sum(blocks.update(i, b)) + blocks[i].layout@.size == live_sum(blocks),
    decreases blocks.len(),
{
    if i < blocks.len() - 1 {
        assert(blocks.update(i, b).drop_last() =~= blocks.drop_last().update(i, b));
        lemma_live_sum_release(blocks.drop_last(), i, b);
    } else {
        assert(blocks.update(i, b).drop_last() =~= blocks.drop_last());
    }
}

/// Bytes `[start, start + len)` of `memory`.
spec fn range(memory: Seq<u8>, start: int, len: int) -> Seq<u8> {
    memory.subrange(start, start + len)
}

/// `bytes` with `data` written from `offset` on.
pub open spec fn splice(bytes: Seq<u8>, offset: int, data: Seq<u8>) -> Seq<u8> {
    bytes.take(offset) + data + bytes.skip(offset + data.len())
}

/// An arena of blocks with a budget of bytes that may be live at once.
pub struct Heap {
    memory: Vec<u8>,
    blocks: Vec<Block>,
    in_use: usize,
    limit: usize,
}

/// Every live block of `h1` but the one at `except` is live in `h2`, with
/// the same layout and bytes.
pub open spec fn keeps_others(h1: &Heap, h2: &Heap, except: nat) -> bool {
    forall|a: nat|
        a != except && #[trigger] h1.live(a) ==> {
            &&& h2.live(a)
            &&& h2.layout_at(a) == h1.layout_at(a)
            &&& h2.bytes_at(a) == h1.bytes_at(a)
        }
}

impl Heap {
    pub closed spec fn wf(&self) -> bool {
        &&& self.in_use == live_sum(self.blocks@)
        &&& self.in_use <= self.limit
        &&& self.blocks@.len() < usize::MAX
        &&& forall|i: int|
            0 <= i < self.blocks@.len() ==> {
                &&& (#[trigger] self.blocks@[i]).layout@.valid()
                &&& self.blocks@[i].start + self.blocks@[i].layout@.size <= self.memory@.len()
            }
        &&& forall|i: int, j: int|
            0 <= i < j < self.blocks@.len() ==> #[trigger] self.blocks@[i].start
                + self.blocks@[i].layout@.size <= #[trigger] self.blocks@[j].start
    }

    /// The block at `addr` is allocated.
    pub closed spec fn live(&self, addr: nat) -> bool {
        1 <= addr <= self.blocks@.len() && self.blocks@[addr - 1].live
    }

    /// Layout the block at `addr` was allocated with.
    pub closed spec fn layout_at(&self, addr: nat) -> LayoutView {
        self.blocks@[addr - 1].layout@
    }

    /// Contents of the block at `addr`.
    pub closed spec fn bytes_at(&self, addr: nat) -> Seq<u8> {
        range(self.memory@, self.blocks@[addr - 1].start as int, self.layout_at(addr).size as int)
    }

    /// Bytes in live blocks.
    pub closed spec fn spec_in_use(&self) -> nat {
        self.in_use as nat
    }

    /// Most bytes that may be live at once.
    pub closed spec fn spec_limit(&self) -> nat {
        self.limit as nat
    }

    /// Bytes of the arena handed out so far, live or not.
    pub closed spec fn used(&self) -> nat {
        self.memory@.len()
    }

    /// Blocks handed out so far, live or not.
    pub closed spec fn count(&self) -> nat {
        self.blocks@.len()
    }

    /// A new block of `size` bytes fits, once `freed` bytes are released.
    pub open spec fn has_room(&self, size: nat, freed: nat) -> bool {
        &&& self.spec_in_use() + size <= self.spec_limit() + freed
        &&& self.used() + size <= usize::MAX
        &&& self.count() + 1 < usize::MAX
    }

    /// Facts every well-formed heap gives about a live block.
    pub proof fn lemma_live_block(&self, addr: nat)
        requires
            self.wf(),
            self.live(addr),
        ensures
            self.layout_at(addr).valid(),
            self.bytes_at(addr).len() == self.layout_at(addr).size,
            self.layout_at(addr).size <= self.spec_in_use(),
            self.spec_in_use() <= self.spec_limit(),
    {
        let i = addr - 1;
        assert(self.blocks@[i].layout@.valid());
        lemma_live_sum_bound(self.blocks@, i);
    }

    /// An empty arena in which at most `limit` bytes may be live at once.
    pub fn new(limit: usize) -> (r: Heap)
        ensures
            r.wf(),
            r.spec_in_use() == 0,
            r.spec_limit() == limit,
            r.count() == 0,
            r.used() == 0,
            forall|a: nat| !r.live(a),
    {
        Heap { memory: Vec::new(), blocks: Vec::new(), in_use: 0, limit }
    }

    /// A new block of `size` bytes fits, once `freed` bytes are released.
    pub fn room_for(&self, size: usize, freed: usize) -> (r: bool)
        requires
            self.wf(),
        ensures
            r == self.has_room(size as nat, freed as nat),
    {
        size as u128 + self.in_use as u128 <= self.limit as u128 + freed as u128
            && size <= usize::MAX - self.memory.len()
            && self.blocks.len() < usize::MAX - 1
    }

    /// Bytes in live blocks.
    pub fn in_use(&self) -> (r: usize)
        ensures
            r == self.spec_in_use(),
    {
        self.in_use
    }

    /// A new zero-filled block of `layout`, addressed by a thin pointer.
    ///
    /// Fails, changing nothing, when the block does not fit in the budget or
    /// the arena is exhausted.
    pub fn allocate(&mut self, layout: Layout) -> (r: Result<NonNull, AllocError>)
        requires
            old(self).wf(),
        ensures
            final(self).wf(),
            final(self).spec_limit() == old(self).spec_limit(),
            r is Ok <==> old(self).has_room(layout@.size, 0),
            r matches Err(e) ==> *final(self) == *old(self) && e.spec_layout() == layout,
            r matches Ok(p) ==> {
                &&& p.spec_metadata() is None
                &&& !old(self).live(p.spec_addr() as nat)
                &&& final(self).live(p.spec_addr() as nat)
                &&& final(self).layout_at(p.spec_addr() as nat) == layout@
                &&& final(self).bytes_at(p.spec_addr() as nat) == Seq::new(layout@.size, |k: int| 0u8)
                &&& final(self).spec_in_use() == old(self).spec_in_use() + layout@.size
                &&& final(self).used() == old(self).used() + layout@.size
                &&& final(self).count() == old(self).count() + 1
                &&& keeps_others(old(self), final(self), p.spec_addr() as nat)
            },
    {
        let size = layout.size();
        if size > self.limit - self.in_use || size > usize::MAX - self.memory.len() || self.blocks.len() >= usize::MAX - 1 {
            return Err(AllocError { layout });
        }
        let ghost h0 = *self;
        let i = self.reserve(layout);
        proof {
            Heap::lemma_append_frame(&h0, self);
            assert(self.bytes_at((i + 1) as nat) =~= Seq::new(layout@.size, |k: int| 0u8));
        }
        Ok(NonNull::new_unchecked(i + 1, None))
    }

    /// Frees the block at `ptr`, allocated with `layout`.
    pub fn deallocate(&mut self, ptr: NonNull, layout: Layout)
        requires
            old(self).wf(),
            old(self).live(ptr.spec_addr() as nat),
            old(self).layout_at(ptr.spec_addr() as nat) == layout@,
        ensures
            final(self).wf(),
            final(self).spec_limit() == old(self).spec_limit(),
            !final(self).live(ptr.spec_addr() as nat),
            final(self).spec_in_use() + layout@.size == old(self).spec_in_use(),
            keeps_others(old(self), final(self), ptr.spec_addr() as nat),
            forall|b: nat| b != ptr.spec_addr() ==> #[trigger] final(self).live(b) == old(self).live(b),
    {
        let ghost h0 = *self;
        let i = ptr.as_ptr() - 1;
        self.release(i);
        proof {
            Heap::lemma_release_frame(&h0, self, i as int);
        }
    }

    /// Moves the block at `ptr` (allocated with `old_layout`) to a new block
    /// of `new_layout`, at least as large, keeping its bytes at the start.
    /// The returned pointer is thin; the old block is freed.
    ///
    /// Fails, changing nothing, when the new block does not fit once the old
    /// one is released, or the arena is exhausted.
    pub fn grow(&mut self, ptr: NonNull, old_layout: Layout, new_layout: Layout) -> (r: Result<NonNull, AllocError>)
        requires
            old(self).wf(),
            old(self).live(ptr.spec_addr() as nat),
            old(self).layout_at(ptr.spec_addr() as nat) == old_layout@,
            new_layout@.size >= old_layout@.size,
        ensures
            final(self).wf(),
            final(self).spec_limit() == old(self).spec_limit(),
            r is Ok <==> old(self).has_room(new_layout@.size, old_layout@.size),
            r matches Err(e) ==> *final(self) == *old(self) && e.spec_layout() == new_layout,
            r matches Ok(p) ==> {
                &&& p.spec_metadata() is None
                &&& !old(self).live(p.spec_addr() as nat)
                &&& final(self).live(p.spec_addr() as nat)
                &&& !final(self).live(ptr.spec_addr() as nat)
                &&& final(self).layout_at(p.spec_addr() as nat) == new_layout@
                &&& final(self).bytes_at(p.spec_addr() as nat).len() == new_layout@.size
                &&& final(self).bytes_at(p.spec_addr() as nat).take(old_layout@.size as int)
                    == old(self).bytes_at(ptr.spec_addr() as nat)
                &&& final(self).spec_in_use() + old_layout@.size == old(self).spec_in_use() + new_layout@.size
                &&& keeps_others(old(self), final(self), ptr.spec_addr() as nat)
            },
    {
        match self.relocate(ptr, old_layout, new_layout, old_layout.size()) {
            Ok(p) => {
                proof {
                    let a = p.spec_addr() as nat;
                    assert(self.bytes_at(a).take(old_layout@.size as int) =~= old(self).bytes_at(ptr.spec_addr() as nat));
                }
                Ok(p)
            },
            Err(e) => Err(e),
        }
    }

    /// Moves the block at `ptr` (allocated with `old_layout`) to a new block
    /// of `new_layout`, no larger, keeping the bytes that fit. The returned
    /// pointer is thin; the old block is freed.
    ///
    /// Fails, changing nothing, when the arena is exhausted.
    pub fn shrink(&mut self, ptr: NonNull, old_layout: Layout, new_layout: Layout) -> (r: Result<NonNull, AllocError>)
        requires
            old(self).wf(),
            old(self).live(ptr.spec_addr() as nat),
            old(self).layout_at(ptr.spec_addr() as nat) == old_layout@,
            new_layout@.size <= old_layout@.size,
        ensures
            final(self).wf(),
            final(self).spec_limit() == old(self).spec_limit(),
            r is Ok <==> old(self).has_room(new_layout@.size, old_layout@.size),
            r matches Err(e) ==> *final(self) == *old(self) && e.spec_layout() == new_layout,
            r matches Ok(p) ==> {
                &&& p.spec_metadata() is None
                &&& !old(self).live(p.spec_addr() as nat)
                &&& final(self).live(p.spec_addr() as nat)
                &&& !final(self).live(ptr.spec_addr() as nat)
                &&& final(self).layout_at(p.spec_addr() as nat) == new_layout@
                &&& final(self).bytes_at(p.spec_addr() as nat)
                    == old(self).bytes_at(ptr.spec_addr() as nat).take(new_layout@.size as int)
                &&& final(self).spec_in_use() + old_layout@.size == old(self).spec_in_use() + new_layout@.size
                &&& keeps_others(old(self), final(self), ptr.spec_addr() as nat)
            },
    {
        match self.relocate(ptr, old_layout, new_layout, new_layout.size()) {
            Ok(p) => {
                proof {
                    let a = p.spec_addr() as nat;
                    assert(self.bytes_at(a) =~= old(self).bytes_at(ptr.spec_addr() as nat).take(new_layout@.size as int));
                }
                Ok(p)
            },
            Err(e) => Err(e),
        }
    }

    /// Frees the block at `ptr` and moves its first `keep` bytes to the start
    /// of a new block of `new_layout`.
    fn relocate(&mut self, ptr: NonNull, old_layout: Layout, new_layout: Layout, keep: usize) -> (r: Result<NonNull, AllocError>)
        requires
            old(self).wf(),
            old(self).live(ptr.spec_addr() as nat),
            old(self).layout_at(ptr.spec_addr() as nat) == old_layout@,
            keep <= old_layout@.size,
            keep <= new_layout@.size,
        ensures
            final(self).wf(),
            final(self).spec_limit() == old(self).spec_limit(),
            r is Ok <==> old(self).has_room(new_layout@.size, old_layout@.size),
            r matches Err(e) ==> *final(self) == *old(self) && e.spec_layout() == new_layout,
            r matches Ok(p) ==> {
                &&& p.spec_metadata() is None
                &&& !old(self).live(p.spec_addr() as nat)
                &&& final(self).live(p.spec_addr() as nat)
                &&& !final(self).live(ptr.spec_addr() as nat)
                &&& final(self).layout_at(p.spec_addr() as nat) == new_layout@
                &&& final(self).bytes_at(p.spec_addr() as nat).len() == new_layout@.size
                &&& final(self).bytes_at(p.spec_addr() as nat).take(keep as int)
                    == old(self).bytes_at(ptr.spec_addr() as nat).take(keep as int)
                &&& final(self).spec_in_use() + old_layout@.size == old(self).spec_in_use() + new_layout@.size
                &&& keeps_others(old(self), final(self), ptr.spec_addr() as nat)
            },
    {
        let i = ptr.as_ptr() - 1;
        let size = new_layout.size();
        let old_size = old_layout.size();
        proof {
            lemma_live_sum_bound(self.blocks@, i as int);
        }
        if size > self.limit - self.in_use + old_size || size > usize::MAX - self.memory.len() || self.blocks.len() >= usize::MAX - 1 {
            return Err(AllocError { layout: new_layout });
        }
        let ghost h0 = *self;
        let from = self.blocks[i].start;
        self.release(i);
        let ghost h1 = *self;
        proof {
            Heap::lemma_release_frame(&h0, &h1, i as int);
        }
        let to = self.memory.len();
        let j = self.reserve(new_layout);
        let ghost h2 = *self;
        proof {
            Heap::lemma_append_frame(&h1, &h2);
        }
        self.move_bytes(from, to, keep);
        proof {
            let a = (j + 1) as nat;
            assert forall|b: nat| b != ptr.spec_addr() && #[trigger] h0.live(b) implies {
                &&& self.live(b)
                &&& self.layout_at(b) == h0.layout_at(b)
                &&& self.bytes_at(b) == h0.bytes_at(b)
            } by {
                assert(h2.live(b));
                let k = b - 1;
                assert(h2.blocks@[k as int].start + h2.blocks@[k as int].layout@.size <= to);
                assert(self.bytes_at(b) =~= h2.bytes_at(b));
            }
            assert(self.bytes_at(a).take(keep as int) =~= h0.bytes_at(ptr.spec_addr() as nat).take(keep as int));
        }
        Ok(NonNull::new_unchecked(j + 1, None))
    }

    /// The `len` bytes of the block at `ptr` from `offset` on.
    pub fn read(&self, ptr: NonNull, offset: usize, len: usize) -> (r: Vec<u8>)
        requires
            self.wf(),
            self.live(ptr.spec_addr() as nat),
            offset + len <= self.layout_at(ptr.spec_addr() as nat).size,
        ensures
            r@ == self.bytes_at(ptr.spec_addr() as nat).subrange(offset as int, offset + len),
    {
        let i = ptr.as_ptr() - 1;
        let start = self.blocks[i].start;
        let ghost bytes = self.bytes_at(ptr.spec_addr() as nat);
        let mlen = self.memory.len();
        let mut out: Vec<u8> = Vec::new();
        let mut k: usize = 0;
        while k < len
            invariant
                k <= len,
                self.wf(),
                self.live(ptr.spec_addr() as nat),
                mlen == self.memory@.len(),
                i == ptr.spec_addr() - 1,
                start == self.blocks@[i as int].start,
                start + self.layout_at(ptr.spec_addr() as nat).size <= self.memory@.len(),
                offset + len <= self.layout_at(ptr.spec_addr() as nat).size,
                bytes == self.bytes_at(ptr.spec_addr() as nat),
                out@ == bytes.subrange(offset as int, offset + k),
            decreases len - k,
        {
            out.push(self.memory[start + offset + k]);
            k += 1;
            proof {
                assert(out@ =~= bytes.subrange(offset as int, offset + k));
            }
        }
        out
    }

    /// Writes `data` into the block at `ptr` from `offset` on.
    pub fn write(&mut self, ptr: NonNull, offset: usize, data: &[u8])
        requires
            old(self).wf(),
            old(self).live(ptr.spec_addr() as nat),
            offset + data@.len() <= old(self).layout_at(ptr.spec_addr() as nat).size,
        ensures
            final(self).wf(),
            final(self).spec_limit() == old(self).spec_limit(),
            final(self).spec_in_use() == old(self).spec_in_use(),
            final(self).live(ptr.spec_addr() as nat),
            final(self).layout_at(ptr.spec_addr() as nat) == old(self).layout_at(ptr.spec_addr() as nat),
            final(self).bytes_at(ptr.spec_addr() as nat) == splice(old(self).bytes_at(ptr.spec_addr() as nat), offset as int, data@),
            keeps_others(old(self), final(self), ptr.spec_addr() as nat),
            final(self).used() == old(self).used(),
            final(self).count() == old(self).count(),
            forall|b: nat| #[trigger] final(self).live(b) == old(self).live(b),
    {
        let i = ptr.as_ptr() - 1;
        let start = self.blocks[i].start;
        let ghost h0 = *self;
        let ghost before = self.memory@;
        let mlen = self.memory.len();
        let n = data.len();
        let mut k: usize = 0;
        while k < n
            invariant
                k <= n,
                mlen == before.len(),
                n == data@.len(),
                i == ptr.spec_addr() - 1,
                h0.wf(),
                h0.live(ptr.spec_addr() as nat),
                start == h0.blocks@[i as int].start,
                start + h0.layout_at(ptr.spec_addr() as nat).size <= before.len(),
                offset + n <= h0.layout_at(ptr.spec_addr() as nat).size,
                before == h0.memory@,
                self.memory@.len() == before.len(),
                self.blocks@ == h0.blocks@,
                self.in_use == h0.in_use,
                self.limit == h0.limit,
                forall|j: int| 0 <= j < before.len() ==> #[trigger] self.memory@[j] == if start + offset <= j < start + offset + k {
                    data@[j - start - offset]
                } else {
                    before[j]
                },
            decreases n - k,
        {
            self.memory.set(start + offset + k, data[k]);
            k += 1;
        }
        proof {
            Heap::lemma_frame(&h0, self, i as int, start + offset, n as int);
            assert(self.bytes_at(ptr.spec_addr() as nat) =~= splice(h0.bytes_at(ptr.spec_addr() as nat), offset as int, data@));
        }
    }

    /// Copies `len` bytes from the block at `src` (from `src_offset` on) into
    /// the block at `dst` (from `dst_offset` on). The two ranges may overlap.
    pub fn copy(&mut self, src: NonNull, src_offset: usize, dst: NonNull, dst_offset: usize, len: usize)
        requires
            old(self).wf(),
            old(self).live(src.spec_addr() as nat),
            old(self).live(dst.spec_addr() as nat),
            src_offset + len <= old(self).layout_at(src.spec_addr() as nat).size,
            dst_offset + len <= old(self).layout_at(dst.spec_addr() as nat).size,
        ensures
            final(self).wf(),
            final(self).spec_limit() == old(self).spec_limit(),
            final(self).spec_in_use() == old(self).spec_in_use(),
            final(self).live(dst.spec_addr() as nat),
            final(self).layout_at(dst.spec_addr() as nat) == old(self).layout_at(dst.spec_addr() as nat),
            final(self).bytes_at(dst.spec_addr() as nat) == splice(
                old(self).bytes_at(dst.spec_addr() as nat),
                dst_offset as int,
                old(self).bytes_at(src.spec_addr() as nat).subrange(src_offset as int, src_offset + len),
            ),
            keeps_others(old(self), final(self), dst.spec_addr() as nat),
            final(self).used() == old(self).used(),
            final(self).count() == old(self).count(),
            forall|b: nat| #[trigger] final(self).live(b) == old(self).live(b),
    {
        let tmp = self.read(src, src_offset, len);
        self.write(dst, dst_offset, tmp.as_slice());
    }

    /// Every live block stays as it was when memory and blocks are only
    /// appended to.
    proof fn lemma_append_frame(h1: &Heap, h2: &Heap)
        requires
            h1.wf(),
            h1.blocks@.len() <= h2.blocks@.len(),
            forall|k: int| 0 <= k < h1.blocks@.len() ==> h2.blocks@[k] == h1.blocks@[k],
            h1.memory@.len() <= h2.memory@.len(),
            forall|k: int| 0 <= k < h1.memory@.len() ==> h2.memory@[k] == h1.memory@[k],
        ensures
            forall|a: nat| #[trigger] h1.live(a) ==> {
                &&& h2.live(a)
                &&& h2.layout_at(a) == h1.layout_at(a)
                &&& h2.bytes_at(a) == h1.bytes_at(a)
            },
    {
        assert forall|a: nat| #[trigger] h1.live(a) implies {
            &&& h2.live(a)
            &&& h2.layout_at(a) == h1.layout_at(a)
            &&& h2.bytes_at(a) == h1.bytes_at(a)
        } by {
            let k = a - 1;
            assert(h1.blocks@[k as int].start + h1.blocks@[k as int].layout@.size <= h1.memory@.len());
            assert(h2.bytes_at(a) =~= h1.bytes_at(a));
        }
    }

    /// Releasing the block at index `i` keeps every other live block.
    proof fn lemma_release_frame(h1: &Heap, h2: &Heap, i: int)
        requires
            0 <= i < h1.blocks@.len(),
            h2.blocks@ == h1.blocks@.update(i, Block { live: false, ..h1.blocks@[i] }),
            h2.memory@ == h1.memory@,
        ensures
            keeps_others(h1, h2, (i + 1) as nat),
            !h2.live((i + 1) as nat),
    {
    }

    /// Appends a live block of `layout` filled with zeros; returns its index.
    fn reserve(&mut self, layout: Layout) -> (i: usize)
        requires
            old(self).wf(),
            old(self).has_room(layout@.size, 0),
        ensures
            final(self).wf(),
            i == old(self).blocks@.len(),
            final(self).blocks@ == old(self).blocks@.push(Block { start: old(self).memory@.len() as usize, layout, live: true }),
            final(self).memory@ == old(self).memory@ + Seq::new(layout@.size, |k: int| 0u8),
            final(self).in_use == old(self).in_use + layout@.size,
            final(self).limit == old(self).limit,
    {
        let start = self.memory.len();
        let size = layout.size();
        let ghost before = self.memory@;
        let mut k: usize = 0;
        while k < size
            invariant
                k <= size,
                size == layout@.size,
                start == before.len(),
                start + size <= usize::MAX,
                self.memory@ == before + Seq::new(k as nat, |j: int| 0u8),
                self.blocks@ == old(self).blocks@,
                self.in_use == old(self).in_use,
                self.limit == old(self).limit,
                before == old(self).memory@,
            decreases size - k,
        {
            self.memory.push(0u8);
            k += 1;
            proof {
                assert(self.memory@ =~= before + Seq::new(k as nat, |j: int| 0u8));
            }
        }
        let i = self.blocks.len();
        let ghost old_blocks = self.blocks@;
        self.blocks.push(Block { start, layout, live: true });
        self.in_use = self.in_use + size;
        proof {
            assert(self.blocks@.drop_last() =~= old_blocks);
            assert forall|a: int, b: int| 0 <= a < b < self.blocks@.len() implies #[trigger] self.blocks@[a].start
                + self.blocks@[a].layout@.size <= #[trigger] self.blocks@[b].start by {
                if b == i {
                    assert(old_blocks[a].start + old_blocks[a].layout@.size <= before.len());
                } else {
                    assert(old_blocks[a].start + old_blocks[a].layout@.size <= old_blocks[b].start);
                }
            }
            assert forall|a: int| 0 <= a < self.blocks@.len() implies {
                &&& (#[trigger] self.blocks@[a]).layout@.valid()
                &&& self.blocks@[a].start + self.blocks@[a].layout@.size <= self.memory@.len()
            } by {
                if a < i {
                    assert(old_blocks[a].layout@.valid());
                }
            }
        }
        i
    }

    /// Marks the block at index `i` free.
    fn release(&mut self, i: usize)
        requires
            old(self).wf(),
            i < old(self).blocks@.len(),
            old(self).blocks@[i as int].live,
        ensures
            final(self).wf(),
            final(self).blocks@ == old(self).blocks@.update(i as int, Block { live: false, ..old(self).blocks@[i as int] }),
            final(self).memory@ == old(self).memory@,
            final(self).in_use + old(self).blocks@[i as int].layout@.size == old(self).in_use,
            final(self).limit == old(self).limit,
    {
        let b = Block { start: self.blocks[i].start, layout: self.blocks[i].layout, live: false };
        proof {
            lemma_live_sum_release(self.blocks@, i as int, b);
            lemma_live_sum_bound(self.blocks@, i as int);
        }
        let size = self.blocks[i].layout.size();
        self.blocks.set(i, b);
        self.in_use = self.in_use - size;
    }

    /// Copies `n` bytes of memory from `from` to `to`, in ranges that do not
    /// overlap.
    fn move_bytes(&mut self, from: usize, to: usize, n: usize)
        requires
            from + n <= to,
            to + n <= old(self).memory@.len(),
        ensures
            final(self).memory@ == splice(old(self).memory@, to as int, range(old(self).memory@, from as int, n as int)),
            final(self).blocks@ == old(self).blocks@,
            final(self).in_use == old(self).in_use,
            final(self).limit == old(self).limit,
    {
        let ghost before = self.memory@;
        let len = self.memory.len();
        let mut k: usize = 0;
        while k < n
            invariant
                k <= n,
                len == before.len(),
                from + n <= to,
                to + n <= before.len(),
                self.memory@.len() == before.len(),
                self.blocks@ == old(self).blocks@,
                self.in_use == old(self).in_use,
                self.limit == old(self).limit,
                forall|j: int| 0 <= j < before.len() ==> #[trigger] self.memory@[j] == if to <= j < to + k {
                    before[j - to + from]
                } else {
                    before[j]
                },
            decreases n - k,
        {
            let b = self.memory[from + k];
            self.memory.set(to + k, b);
            k += 1;
        }
        proof {
            assert(self.memory@ =~= splice(before, to as int, range(before, from as int, n as int)));
        }
    }

    /// Facts about a well-formed heap's blocks after its memory changed only
    /// in `[to, to + n)`, which lies outside every block but `i`.
    proof fn lemma_frame(h1: &Heap, h2: &Heap, i: int, to: int, n: int)
        requires
            h1.wf(),
            0 <= i < h1.blocks@.len(),
            h1.blocks@[i].start <= to,
            to + n <= h1.blocks@[i].start + h1.blocks@[i].layout@.size,
            h2.blocks@ == h1.blocks@,
            h2.memory@.len() == h1.memory@.len(),
            forall|j: int| 0 <= j < h1.memory@.len() && !(to <= j < to + n) ==> h2.memory@[j] == h1.memory@[j],
        ensures
            keeps_others(h1, h2, (i + 1) as nat),
    {
        assert forall|a: nat| a != i + 1 && #[trigger] h1.live(a) implies {
            &&& h2.live(a)
            &&& h2.layout_at(a) == h1.layout_at(a)
            &&& h2.bytes_at(a) == h1.bytes_at(a)
        } by {
            let k = a - 1;
            if k < i {
                assert(h1.blocks@[k].start + h1.blocks@[k].layout@.size <= h1.blocks@[i].start);
            } else {
                assert(h1.blocks@[i].start + h1.blocks@[i].layout@.size <= h1.blocks@[k].start);
            }
            assert(h2.bytes_at(a) =~= h1.bytes_at(a));
        }
    }
}

/// Grows the block behind `ptr` (allocated in `alloc` with `old_layout`) to
/// `new_layout`, as [`Heap::grow`] does; the returned pointer keeps the
/// metadata of `ptr`. On failure nothing changes and `ptr` still owns its
/// block.
pub fn grow_with(ptr: NonNull, old_layout: Layout, new_layout: Layout, alloc: &mut Heap) -> (r: Result<NonNull, AllocError>)
    requires
        old(alloc).wf(),
        old(alloc).live(ptr.spec_addr() as nat),
        old(alloc).layout_at(ptr.spec_addr() as nat) == old_layout@,
        new_layout@.size >= old_layout@.size,
    ensures
        final(alloc).wf(),
        final(alloc).spec_limit() == old(alloc).spec_limit(),
        r is Ok <==> old(alloc).has_room(new_layout@.size, old_layout@.size),
        r matches Err(e) ==> *final(alloc) == *old(alloc) && e.spec_layout() == new_layout,
        r matches Ok(p) ==> {
            &&& p.spec_metadata() == ptr.spec_metadata()
            &&& !old(alloc).live(p.spec_addr() as nat)
            &&& final(alloc).live(p.spec_addr() as nat)
            &&& !final(alloc).live(ptr.spec_addr() as nat)
            &&& final(alloc).layout_at(p.spec_addr() as nat) == new_layout@
            &&& final(alloc).bytes_at(p.spec_addr() as nat).len() == new_layout@.size
            &&& final(alloc).bytes_at(p.spec_addr() as nat).take(old_layout@.size as int)
                == old(alloc).bytes_at(ptr.spec_addr() as nat)
            &&& final(alloc).spec_in_use() + old_layout@.size == old(alloc).spec_in_use() + new_layout@.size
            &&& keeps_others(old(alloc), final(alloc), ptr.spec_addr() as nat)
        },
{
    match alloc.grow(ptr.cast(), old_layout, new_layout) {
        Ok(data) => Ok(ptr.update(data)),
        Err(e) => Err(e),
    }
}

/// Shrinks the block behind `ptr` (allocated in `alloc` with `old_layout`)
/// to `new_layout`, as [`Heap::shrink`] does; the returned pointer keeps the
/// metadata of `ptr`. On failure nothing changes and `ptr` still owns its
/// block.
pub fn shrink_with(ptr: NonNull, old_layout: Layout, new_layout: Layout, alloc: &mut Heap) -> (r: Result<NonNull, AllocError>)
    requires
        old(alloc).wf(),
        old(alloc).live(ptr.spec_addr() as nat),
        old(alloc).layout_at(ptr.spec_addr() as nat) == old_layout@,
        new_layout@.size <= old_layout@.size,
    ensures
        final(alloc).wf(),
        final(alloc).spec_limit() == old(alloc).spec_limit(),
        r is Ok <==> old(alloc).has_room(new_layout@.size, old_layout@.size),
        r matches Err(e) ==> *final(alloc) == *old(alloc) && e.spec_layout() == new_layout,
        r matches Ok(p) ==> {
            &&& p.spec_metadata() == ptr.spec_metadata()
            &&& !old(alloc).live(p.spec_addr() as nat)
            &&& final(alloc).live(p.spec_addr() as nat)
            &&& !final(alloc).live(ptr.spec_addr() as nat)
            &&& final(alloc).layout_at(p.spec_addr() as nat) == new_layout@
            &&& final(alloc).bytes_at(p.spec_addr() as nat)
                == old(alloc).bytes_at(ptr.spec_addr() as nat).take(new_layout@.size as int)
            &&& final(alloc).spec_in_use() + old_layout@.size == old(alloc).spec_in_use() + new_layout@.size
            &&& keeps_others(old(alloc), final(alloc), ptr.spec_addr() as nat)
        },
{
    match alloc.shrink(ptr.cast(), old_layout, new_layout) {
        Ok(data) => Ok(ptr.update(data)),
        Err(e) => Err(e),
    }
}

/// Two steps that each keep the other blocks keep them together, when the
/// second step's block is the first's or was not live before.
pub proof fn lemma_keeps_others_trans(h0: &Heap, h1: &Heap, h2: &Heap, a: nat, b: nat)
    requires
        keeps_others(h0, h1, a),
        keeps_others(h1, h2, b),
        b == a || !h0.live(b),
    ensures
        keeps_others(h0, h2, a),
{
    assert forall|c: nat| c != a && #[trigger] h0.live(c) implies {
        &&& h2.live(c)
        &&& h2.layout_at(c) == h0.layout_at(c)
        &&& h2.bytes_at(c) == h0.bytes_at(c)
    } by {
        assert(h1.live(c));
    }
}

proof fn lemma_live_sum_bound(blocks: Seq<Block>, i: int)
    requires
        0 <= i < blocks.len(),
        blocks[i].live,
    ensures
        blocks[i].layout@.size <= live_sum(blocks),
    decreases blocks.len(),
{
    if i < blocks.len() - 1 {
        lemma_live_sum_bound(blocks.drop_last(), i);
    }
}

} // verus!
