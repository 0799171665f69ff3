//! One block of memory with a bump pointer.
use crate::layout::{align_offset, Layout};
use vstd::prelude::*;

verus! {

/// Address of the first byte of `block`: the pointer that `Vec::as_ptr` gives, as
/// a number.
///
/// Which address it is, is up to the allocator. Claimed of every outcome: the
/// block does not start at zero and does not reach past the end of the address
/// space, as the standard library guarantees of every allocation.
#[verifier::external_body]
fn block_address(block: &Vec<u8>) -> (addr: usize)
    requires
        block@.len() > 0,
    ensures
        addr > 0,
        addr + block@.len() <= usize::MAX,
{
    block.as_ptr() as usize
}

/// `addr` is an address that was given for `block`.
pub closed spec fn lies_at(block: Vec<u8>, addr: int) -> bool {
    call_ensures(block_address, (&block,), addr as usize)
}

/// What a chunk is: a block of bytes at a fixed address, of which the first
/// `len` bytes are in use.
pub struct ChunkView {
    /// The block as it was obtained. Its bytes are only ever overwritten in
    /// place.
    pub home: Vec<u8>,
    /// Address of the first byte.
    pub base: int,
    /// The bytes of the block, used or not.
    pub bytes: Seq<u8>,
    /// How many bytes, counted from the start, are in use.
    pub len: int,
}

impl ChunkView {
    /// The base is the address of the chunk's own block, the bump pointer stays
    /// within the block, and the block within the address space.
    pub open spec fn wf(self) -> bool {
        &&& lies_at(self.home, self.base)
        &&& self.home@.len() == self.bytes.len()
        &&& 0 < self.base
        &&& self.base + self.bytes.len() <= usize::MAX
        &&& 0 <= self.len <= self.bytes.len()
    }

    /// A block of `size` zero bytes with nothing in use.
    pub open spec fn fresh(self, size: int) -> bool {
        &&& self.wf()
        &&& self.len == 0
        &&& self.bytes == Seq::new(size as nat, |i: int| 0u8)
        &&& self.home@ == self.bytes
    }

    /// Where the next allocation with this layout would start: the first
    /// aligned address behind the bytes in use, counted from the start of the
    /// block.
    pub open spec fn offset_for(self, layout: Layout) -> int {
        self.len + crate::layout::padding(self.base + self.len, layout.align() as int)
    }

    /// The unused tail has room for such an allocation.
    pub open spec fn fits(self, layout: Layout) -> bool {
        self.offset_for(layout) + layout.size() <= self.bytes.len()
    }

    /// The chunk after such an allocation: only the bump pointer has moved.
    pub open spec fn carved(self, layout: Layout) -> ChunkView {
        ChunkView { len: self.offset_for(layout) + layout.size(), ..self }
    }

    /// The chunk with nothing in use.
    pub open spec fn rewound(self) -> ChunkView {
        ChunkView { len: 0, ..self }
    }

    /// The chunk with `value` written at `offset`.
    pub open spec fn written(self, offset: int, value: Seq<u8>) -> ChunkView {
        ChunkView {
            bytes: Seq::new(
                self.bytes.len(),
                |i: int|
                    if offset <= i < offset + value.len() {
                        value[i - offset]
                    } else {
                        self.bytes[i]
                    },
            ),
            ..self
        }
    }
}

/// An allocation starts at the first offset behind the bytes in use whose address
/// is aligned; and it fits just where it fits at some such offset.
pub proof fn first_aligned_offset(chunk: ChunkView, layout: Layout)
    requires
        layout.align() > 0,
    ensures
        chunk.len <= chunk.offset_for(layout) < chunk.len + layout.align(),
        (chunk.base + chunk.offset_for(layout)) % layout.align() as int == 0,
        forall|k: int|
            chunk.len <= k < chunk.offset_for(layout) ==> #[trigger] ((chunk.base + k)
                % layout.align() as int) != 0,
        chunk.fits(layout) ==> chunk.offset_for(layout) + layout.size() <= chunk.bytes.len(),
        !chunk.fits(layout) ==> forall|k: int|
            chunk.len <= k && #[trigger] ((chunk.base + k) % layout.align() as int) == 0 ==> k
                + layout.size() > chunk.bytes.len(),
{
    let from = chunk.base + chunk.len;
    let align = layout.align() as int;
    crate::layout::padding_is_least(from, align);
    assert forall|k: int| chunk.len <= k < chunk.offset_for(layout) implies #[trigger] ((chunk.base
        + k) % align) != 0 by {
        assert((from + (k - chunk.len)) % align != 0);
    }
    assert(chunk.base + chunk.offset_for(layout) == from + crate::layout::padding(from, align));
}

/// An allocation moves the bump pointer to the end of what it takes and nothing
/// else; a rewind moves it to the start and nothing else.
pub proof fn only_the_bump_pointer_moves(chunk: ChunkView, layout: Layout)
    ensures
        chunk.carved(layout).len == chunk.offset_for(layout) + layout.size(),
        chunk.carved(layout).home == chunk.home,
        chunk.carved(layout).base == chunk.base,
        chunk.carved(layout).bytes == chunk.bytes,
        chunk.rewound().len == 0,
        chunk.rewound().home == chunk.home,
        chunk.rewound().base == chunk.base,
        chunk.rewound().bytes == chunk.bytes,
{
}

/// A fresh chunk has as many bytes as were asked for, all of them zero, and none
/// in use.
pub proof fn a_fresh_chunk_is_zero(chunk: ChunkView, size: int)
    requires
        size >= 0,
        chunk.fresh(size),
    ensures
        chunk.len == 0,
        chunk.bytes.len() == size,
        forall|i: int| 0 <= i < size ==> #[trigger] chunk.bytes[i] == 0,
        chunk.home@ == chunk.bytes,
        chunk.base > 0,
        chunk.base + size <= usize::MAX,
{
}

/// What is written at an offset is there afterwards, and every other byte stays.
pub proof fn a_write_changes_its_bytes_alone(chunk: ChunkView, offset: int, value: Seq<u8>)
    requires
        0 <= offset,
        offset + value.len() <= chunk.bytes.len(),
    ensures
        chunk.written(offset, value).bytes.len() == chunk.bytes.len(),
        chunk.written(offset, value).bytes.subrange(offset, offset + value.len()) == value,
        chunk.written(offset, value).bytes.subrange(0, offset) == chunk.bytes.subrange(0, offset),
        chunk.written(offset, value).bytes.skip(offset + value.len()) == chunk.bytes.skip(
            offset + value.len(),
        ),
        chunk.written(offset, value).len == chunk.len,
        chunk.written(offset, value).base == chunk.base,
        chunk.written(offset, value).home == chunk.home,
{
    let after = chunk.written(offset, value).bytes;
    assert(after.subrange(offset, offset + value.len()) =~= value);
    assert(after.subrange(0, offset) =~= chunk.bytes.subrange(0, offset));
    assert(after.skip(offset + value.len()) =~= chunk.bytes.skip(offset + value.len()));
}

/// The bytes of a chunk are those of the block that it holds.
pub proof fn a_chunk_shows_its_block(chunk: Chunk)
    ensures
        chunk@.bytes == chunk.block()@,
{
}

/// An address of a block is one that was given for that very block.
proof fn a_block_lies_where_it_was_found(block: Vec<u8>, addr: usize)
    ensures
        lies_at(block, addr as int) <==> call_ensures(block_address, (&block,), addr),
{
}

/// One contiguous block of memory owned by the arena, with a bump pointer
/// (`len`) that says how much of it is in use.
pub struct Chunk {
    block: Vec<u8>,
    base: usize,
    len: usize,
    home: Ghost<Vec<u8>>,
}

impl View for Chunk {
    type V = ChunkView;

    closed spec fn view(&self) -> ChunkView {
        ChunkView {
            home: self.home@,
            base: self.base as int,
            bytes: self.block@,
            len: self.len as int,
        }
    }
}

impl Chunk {
    /// The block that the chunk holds.
    pub closed spec fn block(self) -> Vec<u8> {
        self.block
    }

    /// Obtains a block of `size` bytes, none of it in use.
    pub fn new(size: usize) -> (chunk: Chunk)
        requires
            0 < size <= isize::MAX,
        ensures
            chunk@.fresh(size as int),
            chunk@.home == chunk.block(),
            chunk@.len == 0,
            chunk@.bytes.len() == size,
            forall|i: int| 0 <= i < size ==> #[trigger] chunk@.bytes[i] == 0,
    {
        let block: Vec<u8> = vec![0u8;size];
        let base: usize = block_address(&block);
        assert(lies_at(block, base as int));
        assert(block@ =~= Seq::new(size as nat, |i: int| 0u8));
        let ghost home = block;
        Chunk { block, base, len: 0, home: Ghost(home) }
    }

    /// Size of the block in bytes.
    pub fn capacity(&self) -> (capacity: usize)
        ensures
            capacity == self@.bytes.len(),
    {
        self.block.len()
    }

    /// How many bytes are in use, padding included.
    pub fn len(&self) -> (len: usize)
        ensures
            len == self@.len,
    {
        self.len
    }

    /// Address of the first byte of the block.
    pub fn base(&self) -> (base: usize)
        ensures
            base == self@.base,
    {
        self.base
    }

    /// Tries to carve room for `layout` out of the unused tail, at an address
    /// with the alignment that `layout` asks for. Gives the offset of the room
    /// from the start of the block, or `None`, with the chunk unchanged, where
    /// there is not enough left.
    pub fn try_alloc(&mut self, layout: Layout) -> (carved: Option<usize>)
        requires
            old(self)@.wf(),
            layout.wf(),
        ensures
            final(self)@.wf(),
            final(self).block() == old(self).block(),
            carved is Some <==> old(self)@.fits(layout),
            carved matches Some(offset) ==> {
                &&& offset == old(self)@.offset_for(layout)
                &&& final(self)@ == old(self)@.carved(layout)
                &&& old(self)@.len <= offset
                &&& (old(self)@.base + offset) % layout.align() as int == 0
            },
            carved is None ==> final(self)@ == old(self)@,
            carved matches Some(offset) ==> {
                &&& final(self)@.len == offset + layout.size()
                &&& final(self)@.len <= old(self)@.bytes.len()
                &&& forall|k: int|
                    old(self)@.len <= k < offset ==> #[trigger] ((old(self)@.base + k)
                        % layout.align() as int) != 0
            },
            carved is None ==> forall|k: int|
                old(self)@.len <= k && #[trigger] ((old(self)@.base + k) % layout.align() as int)
                    == 0 ==> k + layout.size() > old(self)@.bytes.len(),
            final(self)@.home == old(self)@.home,
            final(self)@.base == old(self)@.base,
            final(self)@.bytes == old(self)@.bytes,
    {
        proof {
            first_aligned_offset(old(self)@, layout);
        }
        let current: usize = self.base + self.len;
        let padding: usize = align_offset(current, layout.align());
        let start: usize = match self.len.checked_add(padding) {
            Some(start) => start,
            None => {
                return None;
            },
        };
        let used: usize = match start.checked_add(layout.size()) {
            Some(used) => used,
            None => {
                return None;
            },
        };
        if used > self.capacity() {
            return None;
        }
        self.len = used;
        Some(start)
    }

    /// Marks the whole block unused. The bytes stay as they are.
    pub fn rewind(&mut self)
        requires
            old(self)@.wf(),
        ensures
            final(self)@.wf(),
            final(self)@ == old(self)@.rewound(),
            final(self)@ == (ChunkView { len: 0, ..old(self)@ }),
            final(self).block() == old(self).block(),
    {
        self.len = 0;
    }

    /// The `size` bytes at `offset`.
    pub fn bytes(&self, offset: usize, size: usize) -> (bytes: &[u8])
        requires
            offset + size <= self@.bytes.len(),
        ensures
            bytes@ == self@.bytes.subrange(offset as int, offset + size),
    {
        assert(offset + size <= self.block.len());
        vstd::slice::slice_subrange(self.block.as_slice(), offset, offset + size)
    }

    /// The whole block, used or not, to write to.
    pub fn block_mut(&mut self) -> (block: &mut [u8])
        requires
            old(self)@.wf(),
        ensures
            block@ == old(self)@.bytes,
            final(self)@ == (ChunkView { bytes: final(block)@, ..old(self)@ }),
            final(block)@.len() == old(self)@.bytes.len() ==> final(self)@.wf(),
    {
        self.block.as_mut_slice()
    }

    /// Writes `value` at `offset`; the other bytes stay as they are.
    pub fn write(&mut self, offset: usize, value: &[u8])
        requires
            old(self)@.wf(),
            offset + value@.len() <= old(self)@.bytes.len(),
        ensures
            final(self)@.wf(),
            final(self)@ == old(self)@.written(offset as int, value@),
            final(self)@.home == old(self)@.home,
            final(self)@.base == old(self)@.base,
            final(self)@.len == old(self)@.len,
            final(self)@.bytes.len() == old(self)@.bytes.len(),
            final(self)@.bytes.subrange(offset as int, offset + value@.len()) == value@,
            forall|k: int|
                0 <= k < old(self)@.bytes.len() && !(offset <= k < offset + value@.len())
                    ==> #[trigger] final(self)@.bytes[k] == old(self)@.bytes[k],
    {
        let size: usize = value.len();
        let mut i: usize = 0;
        while i < size
            invariant
                i <= size,
                size == value@.len(),
                self.base == old(self).base,
                self.home == old(self).home,
                self.len == old(self).len,
                self.block@.len() == old(self).block@.len(),
                offset + size <= self.block.len(),
                forall|k: int|
                    0 <= k < self.block@.len() ==> #[trigger] self.block@[k] == (if offset <= k
                        < offset + i {
                        value@[k - offset]
                    } else {
                        old(self).block@[k]
                    }),
            decreases size - i,
        {
            self.block[offset + i] = value[i];
            i = i + 1;
        }
        assert(self@.bytes =~= old(self)@.written(offset as int, value@).bytes);
        assert(self@.bytes.subrange(offset as int, offset + value@.len()) =~= value@);
    }
}

} // verus!
