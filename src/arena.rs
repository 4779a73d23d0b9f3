//! A bump arena: regions are carved from large owned blocks, oversized
//! requests get a block of their own, and nothing is freed before the arena.
//!
//! A region is named by its block, its offset in the block and its length.
//! Blocks are never moved, shrunk or freed, so a region stays valid for the
//! arena's whole life, and no two regions handed out overlap.
use vstd::prelude::*;

verus! {

/// The size of a standard block.
pub const K_BLOCK_SIZE: usize = 4096;

/// The least alignment `alloc_aliged` provides, raised to the pointer size
/// where pointers are wider.
pub const MIN_ALIGN: usize = 8;

/// A byte region handed out by an arena.
#[derive(Clone, Copy, Debug, PartialEq, Eq, Structural)]
pub struct Region {
    pub block: usize,
    pub offset: usize,
    pub len: usize,
}

/// `a` and `b` share no byte.
pub open spec fn disjoint(a: Region, b: Region) -> bool {
    a.block != b.block || a.offset + a.len <= b.offset || b.offset + b.len <= a.offset
}

/// The total length of `blocks`.
pub open spec fn total_len(blocks: Seq<Vec<u8>>) -> int
    decreases blocks.len(),
{
    if blocks.len() == 0 {
        0
    } else {
        total_len(blocks.drop_last()) + blocks.last()@.len()
    }
}

/// The bytes `alloc_fallback` adds to the usage for a request of `bytes`.
pub open spec fn fallback_cost(bytes: int) -> int {
    if bytes > K_BLOCK_SIZE / 4 {
        bytes
    } else {
        K_BLOCK_SIZE as int
    }
}

/// The alignment of `alloc_aliged`: the pointer size, and at least 8.
pub open spec fn align_spec() -> int {
    if vstd::layout::size_of::<usize>() > MIN_ALIGN {
        vstd::layout::size_of::<usize>() as int
    } else {
        MIN_ALIGN as int
    }
}

/// `n` zero bytes.
pub open spec fn zeros(n: nat) -> Seq<u8> {
    Seq::new(n, |_i: int| 0u8)
}

/// The padding `alloc_aliged` puts before a region when the cursor is at `cursor`.
pub open spec fn aligned_slop(cursor: nat) -> int {
    if cursor as int % align_spec() == 0 {
        0
    } else {
        align_spec() - cursor as int % align_spec()
    }
}

/// `total_len` depends on the block sizes alone.
proof fn lemma_total_len_same_sizes(a: Seq<Vec<u8>>, b: Seq<Vec<u8>>)
    requires
        a.len() == b.len(),
        forall|i: int| 0 <= i < a.len() ==> (#[trigger] a[i])@.len() == b[i]@.len(),
    ensures
        total_len(a) == total_len(b),
    decreases a.len(),
{
    if a.len() > 0 {
        lemma_total_len_same_sizes(a.drop_last(), b.drop_last());
    }
}

pub struct Arena {
    blocks: Vec<Vec<u8>>,
    /// The standard block that small requests are carved from, if any.
    current: Option<usize>,
    /// The cursor in the current block.
    offset: usize,
    bytes_remaining: usize,
    memory_usage: i64,
    /// Every region handed out so far.
    regions: Ghost<Seq<Region>>,
}

impl Arena {
    pub closed spec fn wf(&self) -> bool {
        let blocks = self.blocks@;
        let rs = self.regions@;
        &&& self.memory_usage == total_len(blocks)
        &&& self.memory_usage >= 0
        &&& forall|k: int| 0 <= k < blocks.len() ==> (#[trigger] blocks[k])@.len() <= usize::MAX
        &&& match self.current {
            Some(b) => {
                &&& b < blocks.len()
                &&& self.offset + self.bytes_remaining == blocks[b as int]@.len()
                &&& self.offset + self.bytes_remaining <= usize::MAX
            },
            None => self.bytes_remaining == 0 && self.offset == 0,
        }
        &&& forall|i: int|
            0 <= i < rs.len() ==> {
                &&& (#[trigger] rs[i]).block < blocks.len()
                &&& rs[i].offset + rs[i].len <= blocks[rs[i].block as int]@.len()
                &&& self.current == Some(rs[i].block) ==> rs[i].offset + rs[i].len <= self.offset
            }
        &&& forall|i: int, j: int|
            0 <= i < j < rs.len() ==> disjoint(#[trigger] rs[i], #[trigger] rs[j])
    }

    /// Every region handed out, in order.
    pub closed spec fn regions(&self) -> Seq<Region> {
        self.regions@
    }

    /// Bytes left for carving in the current standard block.
    pub closed spec fn remaining(&self) -> nat {
        self.bytes_remaining as nat
    }

    /// Whether a standard block is being carved from.
    pub closed spec fn has_block(&self) -> bool {
        self.current.is_some()
    }

    /// The cursor in the current standard block.
    pub closed spec fn cursor(&self) -> nat {
        self.offset as nat
    }

    /// The sizes of all blocks allocated, in order.
    pub closed spec fn block_sizes(&self) -> Seq<nat> {
        Seq::new(self.blocks@.len(), |i: int| self.blocks@[i]@.len())
    }

    /// The contents of block `b`.
    pub closed spec fn block_bytes(&self, b: int) -> Seq<u8> {
        self.blocks@[b]@
    }

    /// The total size of all blocks allocated.
    pub closed spec fn usage(&self) -> int {
        self.memory_usage as int
    }

    pub fn new() -> (r: Self)
        ensures
            r.wf(),
            r.regions() == Seq::<Region>::empty(),
            r.block_sizes() == Seq::<nat>::empty(),
            r.remaining() == 0,
            !r.has_block(),
            r.usage() == 0,
    {
        let r = Arena {
            blocks: Vec::new(),
            current: None,
            offset: 0,
            bytes_remaining: 0,
            memory_usage: 0,
            regions: Ghost(Seq::empty()),
        };
        assert(r.block_sizes() =~= Seq::<nat>::empty());
        r
    }

    /// The total size of all blocks allocated, in bytes: at least the sum of
    /// the sizes requested.
    pub fn memory_usage(&self) -> (r: i64)
        ensures
            r == self.usage(),
    {
        self.memory_usage
    }

    /// Bytes left for carving in the current standard block.
    pub fn bytes_remaining(&self) -> (r: usize)
        ensures
            r == self.remaining(),
    {
        self.bytes_remaining
    }

    /// Whether a standard block is being carved from.
    pub fn has_current_block(&self) -> (r: bool)
        ensures
            r == self.has_block(),
    {
        self.current.is_some()
    }

    /// Append a zero-filled block of `bytes` bytes and return its index.
    fn new_block(&mut self, bytes: usize) -> (b: usize)
        requires
            old(self).wf(),
            old(self).usage() + bytes <= i64::MAX,
        ensures
            final(self).wf(),
            b == old(self).block_sizes().len(),
            final(self).block_sizes() == old(self).block_sizes().push(bytes as nat),
            final(self).usage() == old(self).usage() + bytes,
            final(self).regions() == old(self).regions(),
            final(self).current == old(self).current,
            final(self).offset == old(self).offset,
            final(self).bytes_remaining == old(self).bytes_remaining,
            final(self).blocks@.len() == b + 1,
            final(self).blocks@[b as int]@.len() == bytes,
            forall|k: int|
                0 <= k < b ==> (#[trigger] final(self).blocks@[k])@.len() == old(self).blocks@[k]@.len(),
            forall|k: int| 0 <= k < b ==> #[trigger] final(self).blocks@[k] == old(self).blocks@[k],
            final(self).block_bytes(b as int) == zeros(bytes as nat),
    {
        let mut block: Vec<u8> = Vec::with_capacity(bytes);
        while block.len() < bytes
            invariant
                block@.len() <= bytes,
                block@ == zeros(block@.len()),
            decreases bytes - block@.len(),
        {
            block.push(0u8);
            assert(block@ =~= zeros(block@.len()));
        }
        let b = self.blocks.len();
        let ghost blocks0 = self.blocks@;
        self.blocks.push(block);
        self.memory_usage = self.memory_usage + bytes as i64;
        proof {
            assert(self.blocks@.drop_last() =~= blocks0);
            assert(self.blocks@.last()@.len() == bytes);
            assert forall|k: int| 0 <= k < self.blocks@.len() implies (#[trigger] self.blocks@[k])@.len()
                <= usize::MAX by {
                if k < blocks0.len() {
                    assert(self.blocks@[k] == blocks0[k]);
                }
            }
            assert(total_len(self.blocks@) == total_len(blocks0) + bytes);
            assert(self.block_sizes() =~= old(self).block_sizes().push(bytes as nat));
            let rs = self.regions@;
            assert forall|i: int| 0 <= i < rs.len() implies {
                &&& (#[trigger] rs[i]).block < self.blocks@.len()
                &&& rs[i].offset + rs[i].len <= self.blocks@[rs[i].block as int]@.len()
                &&& self.current == Some(rs[i].block) ==> rs[i].offset + rs[i].len <= self.offset
            } by {
                assert(self.blocks@[rs[i].block as int] == blocks0[rs[i].block as int]);
            }
        }
        b
    }

    /// The index of the current standard block; meaningful when `has_block`.
    pub closed spec fn current_block(&self) -> usize {
        self.current->0
    }

    /// Every block of `pre` has the same bytes in `post`.
    pub open spec fn keeps_blocks(pre: Arena, post: Arena) -> bool {
        forall|k: int|
            0 <= k < pre.block_sizes().len() ==> #[trigger] post.block_bytes(k) == pre.block_bytes(k)
    }

    /// What the fallback path does for a request of `bytes`: a block of its
    /// own for a request over a quarter of the standard size, the carving
    /// cursor left alone; else a fresh standard block that becomes the
    /// current one, carved from its start.
    pub open spec fn fallback_post(pre: Arena, post: Arena, bytes: usize, r: Region) -> bool {
        &&& r.block as int == pre.block_sizes().len()
        &&& r.offset == 0
        &&& r.len == bytes
        &&& Self::keeps_blocks(pre, post)
        &&& post.block_bytes(r.block as int) == zeros(post.block_sizes()[r.block as int])
        &&& post.regions() == pre.regions().push(r)
        &&& post.usage() == pre.usage() + fallback_cost(bytes as int)
        &&& if bytes > K_BLOCK_SIZE / 4 {
            &&& post.block_sizes() == pre.block_sizes().push(bytes as nat)
            &&& post.has_block() == pre.has_block()
            &&& post.current_block() == pre.current_block()
            &&& post.cursor() == pre.cursor()
            &&& post.remaining() == pre.remaining()
        } else {
            &&& post.block_sizes() == pre.block_sizes().push(K_BLOCK_SIZE as nat)
            &&& post.has_block()
            &&& post.current_block() == r.block
            &&& post.cursor() == bytes
            &&& post.remaining() == K_BLOCK_SIZE - bytes
        }
    }

    /// Hand out `bytes` bytes of the current block, after `slop` bytes of
    /// padding.
    fn carve(&mut self, slop: usize, bytes: usize) -> (r: Region)
        requires
            old(self).wf(),
            old(self).has_block(),
            slop + bytes <= old(self).remaining(),
        ensures
            final(self).wf(),
            r == (Region { block: old(self).current_block(), offset: (old(self).cursor() + slop) as usize, len: bytes }),
            final(self).regions() == old(self).regions().push(r),
            final(self).has_block(),
            final(self).current_block() == old(self).current_block(),
            final(self).cursor() == old(self).cursor() + slop + bytes,
            final(self).remaining() == old(self).remaining() - slop - bytes,
            final(self).usage() == old(self).usage(),
            final(self).block_sizes() == old(self).block_sizes(),
            final(self).blocks == old(self).blocks,
    {
        let b = match self.current {
            Some(b) => b,
            None => 0,
        };
        let r = Region { block: b, offset: self.offset + slop, len: bytes };
        self.offset = self.offset + slop + bytes;
        self.bytes_remaining = self.bytes_remaining - slop - bytes;
        let ghost rs0 = self.regions@;
        self.regions = Ghost(rs0.push(r));
        proof {
            let rs = self.regions@;
            assert forall|i: int| 0 <= i < rs.len() implies {
                &&& (#[trigger] rs[i]).block < self.blocks@.len()
                &&& rs[i].offset + rs[i].len <= self.blocks@[rs[i].block as int]@.len()
                &&& self.current == Some(rs[i].block) ==> rs[i].offset + rs[i].len <= self.offset
            } by {
                if i < rs0.len() {
                    assert(rs[i] == rs0[i]);
                }
            }
            assert forall|i: int, j: int| 0 <= i < j < rs.len() implies disjoint(
                #[trigger] rs[i],
                #[trigger] rs[j],
            ) by {
                assert(rs[i] == rs0[i]);
                if j < rs0.len() {
                    assert(rs[j] == rs0[j]);
                }
            }
        }
        r
    }

    /// Hand out a zero-filled block of exactly `bytes` bytes, leaving the
    /// current block and its cursor alone.
    pub fn alloc_new(&mut self, bytes: usize) -> (r: Region)
        requires
            old(self).wf(),
            old(self).usage() + bytes <= i64::MAX,
        ensures
            final(self).wf(),
            r.block as int == old(self).block_sizes().len(),
            r.offset == 0,
            r.len == bytes,
            final(self).regions() == old(self).regions().push(r),
            final(self).block_sizes() == old(self).block_sizes().push(bytes as nat),
            Self::keeps_blocks(*old(self), *final(self)),
            final(self).block_bytes(r.block as int) == zeros(bytes as nat),
            final(self).usage() == old(self).usage() + bytes,
            final(self).has_block() == old(self).has_block(),
            final(self).current_block() == old(self).current_block(),
            final(self).cursor() == old(self).cursor(),
            final(self).remaining() == old(self).remaining(),
    {
        let b = self.new_block(bytes);
        let r = Region { block: b, offset: 0, len: bytes };
        let ghost rs0 = self.regions@;
        self.regions = Ghost(rs0.push(r));
        proof {
            let rs = self.regions@;
            assert forall|i: int| 0 <= i < rs.len() implies {
                &&& (#[trigger] rs[i]).block < self.blocks@.len()
                &&& rs[i].offset + rs[i].len <= self.blocks@[rs[i].block as int]@.len()
                &&& self.current == Some(rs[i].block) ==> rs[i].offset + rs[i].len <= self.offset
            } by {
                if i < rs0.len() {
                    assert(rs[i] == rs0[i]);
                } else {
                    assert(self.block_sizes()[b as int] == bytes);
                    assert(self.current != Some(b));
                }
            }
            assert forall|i: int, j: int| 0 <= i < j < rs.len() implies disjoint(
                #[trigger] rs[i],
                #[trigger] rs[j],
            ) by {
                assert(rs[i] == rs0[i]);
                if j < rs0.len() {
                    assert(rs[j] == rs0[j]);
                }
            }
        }
        r
    }

    /// The path taken when the current block cannot serve `bytes`.
    pub fn alloc_fallback(&mut self, bytes: usize) -> (r: Region)
        requires
            old(self).wf(),
            old(self).usage() + fallback_cost(bytes as int) <= i64::MAX,
        ensures
            final(self).wf(),
            Self::fallback_post(*old(self), *final(self), bytes, r),
    {
        if bytes > K_BLOCK_SIZE / 4 {
            return self.alloc_new(bytes);
        }
        let b = self.new_block(K_BLOCK_SIZE);
        self.current = Some(b);
        self.offset = 0;
        self.bytes_remaining = K_BLOCK_SIZE;
        proof {
            assert(self.block_sizes()[b as int] == K_BLOCK_SIZE);
            assert(self.blocks@[b as int]@.len() == K_BLOCK_SIZE);
            let rs = self.regions@;
            assert forall|i: int| 0 <= i < rs.len() implies {
                &&& (#[trigger] rs[i]).block < self.blocks@.len()
                &&& rs[i].offset + rs[i].len <= self.blocks@[rs[i].block as int]@.len()
                &&& self.current == Some(rs[i].block) ==> rs[i].offset + rs[i].len <= self.offset
            } by {
                assert(rs[i] == old(self).regions@[i]);
                assert(rs[i].block < b);
                assert(self.block_sizes()[rs[i].block as int] == old(self).block_sizes()[rs[i].block as int]);
            }
        }
        self.carve(0, bytes)
    }

    /// Hand out `bytes` bytes, carved from the current block when it has
    /// room, else by the fallback path.
    pub fn allocate(&mut self, bytes: usize) -> (r: Region)
        requires
            old(self).wf(),
            bytes > 0,
            bytes > old(self).remaining() ==> old(self).usage() + fallback_cost(bytes as int)
                <= i64::MAX,
        ensures
            final(self).wf(),
            r.len == bytes,
            bytes <= old(self).remaining() ==> {
                &&& r == (Region { block: old(self).current_block(), offset: old(self).cursor() as usize, len: bytes })
                &&& final(self).regions() == old(self).regions().push(r)
                &&& final(self).has_block()
                &&& final(self).current_block() == old(self).current_block()
                &&& final(self).cursor() == old(self).cursor() + bytes
                &&& final(self).remaining() == old(self).remaining() - bytes
                &&& final(self).usage() == old(self).usage()
                &&& final(self).block_sizes() == old(self).block_sizes()
                &&& Self::keeps_blocks(*old(self), *final(self))
            },
            bytes > old(self).remaining() ==> Self::fallback_post(*old(self), *final(self), bytes, r),
    {
        if bytes <= self.bytes_remaining {
            return self.carve(0, bytes);
        }
        self.alloc_fallback(bytes)
    }

    /// As `allocate`, but the region's offset is a multiple of `align_spec()`;
    /// blocks start maximally aligned, so the region's address is aligned too.
    pub fn alloc_aliged(&mut self, bytes: usize) -> (r: Region)
        requires
            old(self).wf(),
            bytes > 0,
            aligned_slop(old(self).cursor()) + bytes > old(self).remaining() ==> old(self).usage()
                + fallback_cost(bytes as int) <= i64::MAX,
        ensures
            final(self).wf(),
            r.len == bytes,
            r.offset as int % align_spec() == 0,
            ({
                let slop = aligned_slop(old(self).cursor());
                if slop + bytes <= old(self).remaining() {
                    &&& r == (Region { block: old(self).current_block(), offset: (old(self).cursor() + slop) as usize, len: bytes })
                    &&& final(self).regions() == old(self).regions().push(r)
                    &&& final(self).has_block()
                    &&& final(self).current_block() == old(self).current_block()
                    &&& final(self).cursor() == old(self).cursor() + slop + bytes
                    &&& final(self).remaining() == old(self).remaining() - slop - bytes
                    &&& final(self).usage() == old(self).usage()
                    &&& final(self).block_sizes() == old(self).block_sizes()
                    &&& Self::keeps_blocks(*old(self), *final(self))
                } else {
                    Self::fallback_post(*old(self), *final(self), bytes, r)
                }
            }),
    {
        let ptr_size = std::mem::size_of::<usize>();
        let align = if ptr_size > MIN_ALIGN { ptr_size } else { MIN_ALIGN };
        let current_mod = self.offset % align;
        let slop = if current_mod == 0 { 0 } else { align - current_mod };
        if slop <= self.bytes_remaining && bytes <= self.bytes_remaining - slop {
            let r = self.carve(slop, bytes);
            proof {
                let c = old(self).cursor() as int;
                let a = align_spec();
                assert(a == align as int);
                assert(c % a == current_mod as int);
                assert((c + slop) % a == 0) by (nonlinear_arith)
                    requires
                        a > 0,
                        slop == (if c % a == 0 { 0 } else { a - c % a }),
                ;
            }
            r
        } else {
            self.alloc_fallback(bytes)
        }
    }

    /// Every region handed out lies inside its block, and no two overlap.
    pub proof fn lemma_regions_disjoint(&self)
        requires
            self.wf(),
        ensures
            forall|i: int|
                0 <= i < self.regions().len() ==> (#[trigger] self.regions()[i]).block
                    < self.block_sizes().len() && self.regions()[i].offset + self.regions()[i].len
                    <= self.block_sizes()[self.regions()[i].block as int],
            forall|i: int, j: int|
                0 <= i < j < self.regions().len() ==> disjoint(
                    #[trigger] self.regions()[i],
                    #[trigger] self.regions()[j],
                ),
    {
    }

    /// The bytes of a region handed out by this arena.
    pub fn region_bytes(&self, r: Region) -> (out: &[u8])
        requires
            self.wf(),
            self.regions().contains(r),
        ensures
            out@ == self.block_bytes(r.block as int).subrange(r.offset as int, (r.offset + r.len) as int),
            out@.len() == r.len,
    {
        let ghost i = self.regions@.index_of(r);
        assert(self.regions@[i] == r);
        let block = self.blocks[r.block].as_slice();
        vstd::slice::slice_subrange(block, r.offset, r.offset + r.len)
    }

    /// Write `value` at position `at` of a region handed out by this arena.
    pub fn write_byte(&mut self, r: Region, at: usize, value: u8)
        requires
            old(self).wf(),
            old(self).regions().contains(r),
            at < r.len,
        ensures
            final(self).wf(),
            final(self).regions() == old(self).regions(),
            final(self).block_sizes() == old(self).block_sizes(),
            final(self).usage() == old(self).usage(),
            final(self).remaining() == old(self).remaining(),
            final(self).has_block() == old(self).has_block(),
            final(self).current_block() == old(self).current_block(),
            final(self).cursor() == old(self).cursor(),
            final(self).block_bytes(r.block as int) == old(self).block_bytes(r.block as int).update(
                (r.offset + at) as int,
                value,
            ),
    {
        let ghost i = self.regions@.index_of(r);
        assert(self.regions@[i] == r);
        self.blocks[r.block].set(r.offset + at, value);
        proof {
            assert(self.block_sizes() =~= old(self).block_sizes());
            let rs = self.regions@;
            assert forall|k: int| 0 <= k < rs.len() implies {
                &&& (#[trigger] rs[k]).block < self.blocks@.len()
                &&& rs[k].offset + rs[k].len <= self.blocks@[rs[k].block as int]@.len()
                &&& self.current == Some(rs[k].block) ==> rs[k].offset + rs[k].len <= self.offset
            } by {
                assert(self.block_sizes()[rs[k].block as int] == old(self).block_sizes()[rs[k].block as int]);
            }
            lemma_total_len_same_sizes(old(self).blocks@, self.blocks@);
            assert forall|k: int| 0 <= k < self.blocks@.len() implies (#[trigger] self.blocks@[k])@.len()
                <= usize::MAX by {
                assert(self.block_sizes()[k] == old(self).block_sizes()[k]);
            }
        }
    }
}

} // verus!
