//! The bump arena: which chunk serves an allocation, when the arena grows, what
//! it holds, and which destructors it owes.
use crate::chunk::{Chunk, ChunkView};
use crate::layout::Layout;
use std::collections::VecDeque;
use std::marker::PhantomData;
use vstd::prelude::*;

verus! {

/// No chunk is smaller than this.
pub const DEFAULT_CHUNK_SIZE: usize = 4096;

/// Size of the chunk that is obtained for an allocation that finds no room: twice
/// what is asked for, but never less than [`DEFAULT_CHUNK_SIZE`], nor less than
/// the size with the most padding that the alignment can call for.
pub open spec fn chunk_size(layout: Layout) -> int {
    let doubled = vstd::math::max(DEFAULT_CHUNK_SIZE as int, 2 * layout.size());
    vstd::math::max(doubled, layout.size() + layout.align() - 1)
}

/// A piece of a chunk that was handed out.
#[derive(Clone, Copy, Debug, PartialEq, Eq, Structural)]
pub struct Region {
    /// Number of the chunk, counted from the oldest.
    pub chunk: usize,
    /// Offset of the first byte from the start of the chunk.
    pub offset: usize,
    /// Size and alignment that were asked for.
    pub layout: Layout,
}

impl Region {
    /// Offset of the first byte behind the region.
    pub open spec fn end(self) -> int {
        self.offset + self.layout.size()
    }

    /// The byte at `at` in chunk number `chunk` belongs to the region.
    pub open spec fn covers(self, chunk: int, at: int) -> bool {
        self.chunk == chunk && self.offset <= at < self.end()
    }

    /// No byte belongs to both regions.
    pub open spec fn disjoint(self, other: Region) -> bool {
        self.chunk != other.chunk || self.end() <= other.offset || other.end() <= self.offset
    }
}

/// A destructor that the arena owes, with the place of the value it is for.
pub struct DropEntry<D> {
    /// The value's region.
    pub region: Region,
    /// The address at which the region starts.
    pub address: usize,
    /// What destroys the value.
    pub destructor: D,
}

/// The destructors that an arena has given up, in the order in which they are to
/// run. Dropping this drops them in that order. The arena stays borrowed until
/// then, so nothing is allocated over a value whose destructor is still to run.
pub struct Owed<'a, D> {
    order: VecDeque<DropEntry<D>>,
    arena: PhantomData<&'a ()>,
}

impl<'a, D> View for Owed<'a, D> {
    type V = Seq<DropEntry<D>>;

    /// The destructors, the next to run first.
    closed spec fn view(&self) -> Seq<DropEntry<D>> {
        self.order@
    }
}

impl<'a, D> Owed<'a, D> {
    /// Number of destructors still to run.
    pub fn len(&self) -> (len: usize)
        ensures
            len == self@.len(),
    {
        self.order.len()
    }

    /// Takes the next destructor to run.
    pub fn next(&mut self) -> (entry: Option<DropEntry<D>>)
        ensures
            match entry {
                Some(entry) => {
                    &&& old(self)@.len() > 0
                    &&& entry == old(self)@[0]
                    &&& final(self)@ == old(self)@.skip(1)
                },
                None => old(self)@.len() == 0 && final(self)@ == old(self)@,
            },
    {
        let entry = self.order.pop_front();
        assert(old(self)@.len() > 0 ==> self@ =~= old(self)@.skip(1));
        entry
    }
}

/// The destructor to run next stands at the front of the queue, which is where the
/// queue begins when it is dropped.
proof fn the_next_destructor_stands_first<'a, D>(owed: Owed<'a, D>)
    ensures
        owed.order@ == owed@,
{
}

impl<'a, D> Drop for Owed<'a, D> {
    // A type with a destructor of its own holds its borrow until it is dropped.
    fn drop(&mut self)
        opens_invariants none
        no_unwind
    {
    }
}

/// Why an allocation was refused.
#[derive(Clone, Copy, Debug, PartialEq, Eq, Structural)]
pub enum AllocError {
    /// The chunk that the allocation calls for is larger than any block of
    /// memory can be.
    ChunkSizeOverflow,
}

/// What an arena is.
#[verifier::ext_equal]
pub struct ArenaView<D> {
    /// The chunks, oldest first.
    pub chunks: Seq<ChunkView>,
    /// The chunk that served last since the arena was created or reset.
    pub current: Option<usize>,
    /// For each chunk, whether the last reset rewound it and it has not served
    /// since.
    pub spare: Seq<bool>,
    /// The destructors owed, in the order in which they were registered.
    pub drops: Seq<DropEntry<D>>,
    /// The regions handed out since the arena was created or reset, oldest
    /// first.
    pub live: Seq<Region>,
}

impl<D> ArenaView<D> {
    /// A region lies within the used part of its chunk, at an aligned address.
    pub open spec fn holds(self, region: Region) -> bool {
        &&& region.chunk < self.chunks.len()
        &&& region.layout.wf()
        &&& region.end() <= self.chunks[region.chunk as int].len
        &&& self.address_of(region) % region.layout.align() as int == 0
    }

    /// The address at which a region starts.
    pub open spec fn address_of(self, region: Region) -> int {
        self.chunks[region.chunk as int].base + region.offset
    }

    /// Every region handed out is held and shares no byte with another, every
    /// destructor owed is for such a region, and spare chunks hold nothing.
    pub open spec fn wf(self) -> bool {
        &&& self.chunks.len() <= usize::MAX
        &&& self.spare.len() == self.chunks.len()
        &&& self.current matches Some(c) ==> c < self.chunks.len() && !self.spare[c as int]
        &&& forall|i: int|
            0 <= i < self.chunks.len() && #[trigger] self.spare[i] ==> self.chunks[i].len == 0
        &&& forall|i: int| 0 <= i < self.chunks.len() ==> (#[trigger] self.chunks[i]).wf()
        &&& forall|i: int| 0 <= i < self.live.len() ==> self.holds(#[trigger] self.live[i])
        &&& forall|i: int, j: int|
            0 <= i < j < self.live.len() ==> (#[trigger] self.live[i]).disjoint(
                #[trigger] self.live[j],
            )
        &&& forall|i: int|
            0 <= i < self.drops.len() ==> {
                &&& self.live.contains((#[trigger] self.drops[i]).region)
                &&& self.drops[i].address == self.address_of(self.drops[i].region)
            }
    }

    /// An arena with no chunk, nothing handed out and no destructor owed.
    pub open spec fn empty() -> ArenaView<D> {
        ArenaView {
            chunks: Seq::empty(),
            current: None,
            spare: Seq::empty(),
            drops: Seq::empty(),
            live: Seq::empty(),
        }
    }

    /// The chunk that served last has room for an allocation.
    pub open spec fn current_fits(self, layout: Layout) -> bool {
        self.current matches Some(c) && self.chunks[c as int].fits(layout)
    }

    /// Chunk number `c` is spare and has room for an allocation.
    pub open spec fn spare_fits(self, c: int, layout: Layout) -> bool {
        0 <= c < self.chunks.len() && self.spare[c] && self.chunks[c].fits(layout)
    }

    /// Chunk number `c` serves an allocation: it served last and has room still,
    /// or that one has none and it is the newest spare chunk that has room.
    pub open spec fn serves(self, c: int, layout: Layout) -> bool {
        if self.current_fits(layout) {
            self.current == Some(c as usize) && 0 <= c < self.chunks.len()
        } else {
            &&& self.spare_fits(c, layout)
            &&& forall|k: int| c < k ==> !(#[trigger] self.spare_fits(k, layout))
        }
    }

    /// The chunk that served last, or a spare one, has room for an allocation.
    pub open spec fn has_room(self, layout: Layout) -> bool {
        self.current_fits(layout) || exists|c: int| #[trigger] self.spare_fits(c, layout)
    }

    /// The region that an allocation gets out of chunk number `c`.
    pub open spec fn next_region(self, c: int, layout: Layout) -> Region {
        Region { chunk: c as usize, offset: self.chunks[c].offset_for(layout) as usize, layout }
    }

    /// The arena after an allocation out of chunk number `c`.
    pub open spec fn carved(self, c: int, layout: Layout) -> ArenaView<D> {
        ArenaView {
            chunks: self.chunks.update(c, self.chunks[c].carved(layout)),
            current: Some(c as usize),
            spare: self.spare.update(c, false),
            live: self.live.push(self.next_region(c, layout)),
            ..self
        }
    }

    /// The arena with one more chunk.
    pub open spec fn grown(self, fresh: ChunkView) -> ArenaView<D> {
        ArenaView { chunks: self.chunks.push(fresh), spare: self.spare.push(false), ..self }
    }

    /// The bytes of a region.
    pub open spec fn contents(self, region: Region) -> Seq<u8> {
        self.chunks[region.chunk as int].bytes.subrange(region.offset as int, region.end())
    }

    /// The arena with `bytes` as the block of chunk number `c`.
    pub open spec fn reblocked(self, c: int, bytes: Seq<u8>) -> ArenaView<D> {
        ArenaView {
            chunks: self.chunks.update(c, ChunkView { bytes, ..self.chunks[c] }),
            ..self
        }
    }

    /// The arena with `value` written at the start of a region.
    pub open spec fn written(self, region: Region, value: Seq<u8>) -> ArenaView<D> {
        ArenaView {
            chunks: self.chunks.update(
                region.chunk as int,
                self.chunks[region.chunk as int].written(region.offset as int, value),
            ),
            ..self
        }
    }

    /// The arena with one more destructor owed.
    pub open spec fn owing(self, region: Region, destructor: D) -> ArenaView<D> {
        ArenaView {
            drops: self.drops.push(
                DropEntry { region, address: self.address_of(region) as usize, destructor },
            ),
            ..self
        }
    }

    /// The arena with no destructor owed.
    pub open spec fn settled(self) -> ArenaView<D> {
        ArenaView { drops: Seq::empty(), ..self }
    }

    /// The arena with every chunk kept but spare, nothing handed out and no
    /// destructor owed.
    pub open spec fn rewound(self) -> ArenaView<D> {
        ArenaView {
            chunks: self.chunks.map_values(|c: ChunkView| c.rewound()),
            current: None,
            spare: Seq::new(self.chunks.len(), |i: int| true),
            drops: Seq::empty(),
            live: Seq::empty(),
        }
    }

    /// The arena after an allocation out of `fresh`, a chunk obtained for it.
    pub open spec fn placed_in(self, fresh: ChunkView, layout: Layout) -> ArenaView<D> {
        self.grown(fresh).carved(self.chunks.len() as int, layout)
    }

    /// What an allocation does, and gives back. It is served by the chunk that
    /// served last, or, where that has no room, by the newest spare chunk that
    /// has. Only where none has, a fresh one is obtained, at an address of the
    /// allocator's choice.
    pub open spec fn allocated(
        self,
        layout: Layout,
        result: Result<Region, AllocError>,
        after: ArenaView<D>,
    ) -> bool {
        if self.has_room(layout) {
            exists|c: int|
                {
                    &&& #[trigger] self.serves(c, layout)
                    &&& after == self.carved(c, layout)
                    &&& result == Ok::<Region, AllocError>(self.next_region(c, layout))
                }
        } else if chunk_size(layout) > isize::MAX {
            &&& after == self
            &&& result == Err::<Region, AllocError>(AllocError::ChunkSizeOverflow)
        } else {
            exists|fresh: ChunkView|
                {
                    &&& #[trigger] fresh.fresh(chunk_size(layout))
                    &&& fresh.fits(layout)
                    &&& after == self.placed_in(fresh, layout)
                    &&& result == Ok::<Region, AllocError>(after.live.last())
                }
        }
    }

    /// What moving a value into the arena does, and gives back: an allocation,
    /// with the value written into its region and the destructor, if there is
    /// one, owed for it.
    pub open spec fn stored(
        self,
        layout: Layout,
        value: Seq<u8>,
        destructor: Option<D>,
        result: Result<Region, AllocError>,
        after: ArenaView<D>,
    ) -> bool {
        match result {
            Ok(region) => exists|carved: ArenaView<D>|
                {
                    &&& #[trigger] self.allocated(layout, result, carved)
                    &&& after == (match destructor {
                        Some(destructor) => carved.written(region, value).owing(region, destructor),
                        None => carved.written(region, value),
                    })
                },
            Err(_) => self.allocated(layout, result, after),
        }
    }
}

/// A chunk of the size that an allocation calls for holds it wherever the chunk
/// starts.
pub(crate) proof fn lemma_fresh_fits(layout: Layout, fresh: ChunkView)
    requires
        layout.wf(),
        fresh.fresh(chunk_size(layout)),
    ensures
        fresh.fits(layout),
{
    crate::layout::padding_is_least(fresh.base, layout.align() as int);
}

/// Where a spare chunk has room and the one that served last has not, a spare
/// chunk serves.
pub(crate) proof fn lemma_some_spare_serves<D>(arena: ArenaView<D>, c: int, layout: Layout)
    requires
        !arena.current_fits(layout),
        arena.spare_fits(c, layout),
    ensures
        exists|s: int| c <= s && #[trigger] arena.serves(s, layout),
    decreases arena.chunks.len() - c,
{
    if exists|k: int| c < k && #[trigger] arena.spare_fits(k, layout) {
        let k = choose|k: int| c < k && #[trigger] arena.spare_fits(k, layout);
        lemma_some_spare_serves(arena, k, layout);
    } else {
        assert(arena.serves(c, layout));
    }
}

/// An allocation out of a chunk that has room keeps the arena well formed: the
/// new region starts behind every byte of the chunk in use.
pub(crate) proof fn lemma_carved_wf<D>(arena: ArenaView<D>, c: int, layout: Layout)
    requires
        arena.wf(),
        layout.wf(),
        0 <= c < arena.chunks.len(),
        arena.chunks[c].fits(layout),
    ensures
        arena.carved(c, layout).wf(),
        arena.carved(c, layout).holds(arena.next_region(c, layout)),
        arena.next_region(c, layout).chunk == c,
        arena.next_region(c, layout).offset == arena.chunks[c].offset_for(layout),
{
    let chunk = arena.chunks[c];
    let after = arena.carved(c, layout);
    let region = arena.next_region(c, layout);
    assert(chunk.wf());
    crate::layout::padding_is_least(chunk.base + chunk.len, layout.align() as int);
    assert(after.holds(region));
    assert forall|i: int| 0 <= i < after.live.len() implies after.holds(
        #[trigger] after.live[i],
    ) by {
        if i < arena.live.len() {
            assert(arena.holds(arena.live[i]));
        }
    }
    assert forall|i: int, j: int| 0 <= i < j < after.live.len() implies (
    #[trigger] after.live[i]).disjoint(#[trigger] after.live[j]) by {
        if j == arena.live.len() {
            assert(arena.holds(arena.live[i]));
        } else {
            assert(arena.live[i].disjoint(arena.live[j]));
        }
    }
    assert forall|i: int| 0 <= i < after.drops.len() implies after.live.contains(
        (#[trigger] after.drops[i]).region,
    ) by {
        let k = choose|k: int| 0 <= k < arena.live.len() && arena.live[k] == arena.drops[i].region;
        assert(arena.live.contains(arena.drops[i].region));
        assert(after.live[k] == after.drops[i].region);
    }
}

/// Another chunk keeps the arena well formed.
pub(crate) proof fn lemma_grown_wf<D>(arena: ArenaView<D>, fresh: ChunkView)
    requires
        arena.wf(),
        fresh.wf(),
        arena.chunks.len() < usize::MAX,
    ensures
        arena.grown(fresh).wf(),
{
    let after = arena.grown(fresh);
    assert forall|i: int| 0 <= i < after.live.len() implies after.holds(
        #[trigger] after.live[i],
    ) by {
        assert(arena.holds(arena.live[i]));
    }
}

/// A live region is held.
pub(crate) proof fn lemma_live_is_held<D>(arena: ArenaView<D>, region: Region)
    requires
        arena.wf(),
        arena.live.contains(region),
    ensures
        arena.holds(region),
        arena.chunks[region.chunk as int].wf(),
{
    let k = choose|k: int| 0 <= k < arena.live.len() && arena.live[k] == region;
    assert(arena.holds(arena.live[k]));
}

/// New bytes in a chunk keep the arena well formed.
pub(crate) proof fn lemma_reblocked_wf<D>(arena: ArenaView<D>, c: int, bytes: Seq<u8>)
    requires
        arena.wf(),
        0 <= c < arena.chunks.len(),
        bytes.len() == arena.chunks[c].bytes.len(),
    ensures
        arena.reblocked(c, bytes).wf(),
{
    let after = arena.reblocked(c, bytes);
    assert forall|i: int| 0 <= i < after.live.len() implies after.holds(
        #[trigger] after.live[i],
    ) by {
        assert(arena.holds(arena.live[i]));
    }
}

/// Writing into a live region keeps the arena well formed.
pub(crate) proof fn lemma_written_wf<D>(arena: ArenaView<D>, region: Region, value: Seq<u8>)
    requires
        arena.wf(),
        arena.live.contains(region),
    ensures
        arena.written(region, value).wf(),
{
    let c = region.chunk as int;
    lemma_live_is_held(arena, region);
    lemma_reblocked_wf(arena, c, arena.chunks[c].written(region.offset as int, value).bytes);
}

/// Size of the chunk to obtain for an allocation.
pub fn chunk_size_for(layout: Layout) -> (size: usize)
    requires
        layout.wf(),
    ensures
        size == chunk_size(layout),
        size >= DEFAULT_CHUNK_SIZE,
        size >= 2 * layout.size(),
        size >= layout.size() + layout.align() - 1,
        size == DEFAULT_CHUNK_SIZE || size == 2 * layout.size() || size == layout.size()
            + layout.align() - 1,
{
    proof {
        crate::layout::size_and_padding_fit(layout);
    }
    let doubled: usize = layout.size() * 2;
    let padded: usize = layout.size() + (layout.align() - 1);
    let mut size: usize = DEFAULT_CHUNK_SIZE;
    if doubled > size {
        size = doubled;
    }
    if padded > size {
        size = padded;
    }
    size
}

/// A growable bump-allocation arena.
///
/// An allocation moves the bump pointer of one chunk forward, until that chunk
/// has no room; then another takes its place: one that a reset has left spare, or
/// a new one. Memory is given up all at once, when the arena is reset or dropped. The arena owes one destructor for each
/// value that was registered with one. `D` is what stands for a destructor; the
/// arena never looks into it.
///
/// Dropping an arena drops the destructors it still owes, the newest first, and
/// then frees the chunks.
pub struct Arena<D> {
    // Newest first: the queue drops its elements from front to back, and a
    // struct drops its fields in the order of their declaration.
    drops: VecDeque<DropEntry<D>>,
    chunks: Vec<Chunk>,
    current: Option<usize>,
    spare: Vec<bool>,
    live: Ghost<Seq<Region>>,
}

impl<D> View for Arena<D> {
    type V = ArenaView<D>;

    closed spec fn view(&self) -> ArenaView<D> {
        ArenaView {
            chunks: self.chunks@.map_values(|c: Chunk| c@),
            current: self.current,
            spare: self.spare@,
            drops: self.drops@.reverse(),
            live: self.live@,
        }
    }
}

/// The newest destructor that an arena owes stands at the front of its queue, and
/// each that was registered before stands one place behind.
proof fn the_newest_destructor_stands_first<D>(arena: Arena<D>)
    ensures
        arena.drops@.len() == arena@.drops.len(),
        forall|i: int|
            0 <= i < arena@.drops.len() ==> #[trigger] arena.drops@[i]
                == arena@.drops[arena@.drops.len() - 1 - i],
{
}

impl<D> Arena<D> {
    /// An arena that holds no memory yet.
    pub fn new() -> (arena: Arena<D>)
        ensures
            arena@.wf(),
            arena@ == ArenaView::<D>::empty(),
            arena@.chunks.len() == 0,
            arena@.current is None,
            arena@.spare.len() == 0,
            arena@.drops.len() == 0,
            arena@.live.len() == 0,
    {
        let arena = Arena {
            drops: VecDeque::new(),
            chunks: Vec::new(),
            current: None,
            spare: Vec::new(),
            live: Ghost(Seq::empty()),
        };
        assert(arena@.chunks =~= Seq::empty());
        assert(arena@.drops =~= Seq::empty());
        arena
    }

    /// Takes over `fresh`, a chunk obtained for an allocation, and places the
    /// allocation in it.
    pub fn place_in(&mut self, fresh: Chunk, layout: Layout) -> (region: Region)
        requires
            old(self)@.wf(),
            fresh@.wf(),
            layout.wf(),
            fresh@.fits(layout),
        ensures
            final(self)@.wf(),
            final(self)@ == old(self)@.placed_in(fresh@, layout),
            region == final(self)@.live.last(),
            final(self)@.holds(region),
            region.chunk == old(self)@.chunks.len(),
            region.layout == layout,
            final(self)@.live == old(self)@.live.push(region),
            final(self)@.drops == old(self)@.drops,
            final(self)@.current == Some(region.chunk),
            final(self)@.chunks.drop_last() == old(self)@.chunks,
            final(self)@.chunks.last().bytes == fresh@.bytes,
            final(self)@.chunks.last().base == fresh@.base,
            final(self)@.chunks.last().len == region.offset + layout.size(),
    {
        let ghost start = fresh@;
        let mut chunk = fresh;
        let count: usize = self.chunks.len();
        let offset: usize = chunk.try_alloc(layout).unwrap();
        let region = Region { chunk: count, offset, layout };
        self.chunks.push(chunk);
        self.spare.push(false);
        self.current = Some(count);
        self.live = Ghost(self.live@.push(region));
        proof {
            assert(self.chunks@.len() == self.chunks.len());
            lemma_grown_wf(old(self)@, start);
            lemma_carved_wf(old(self)@.grown(start), count as int, layout);
            assert(self@ =~= old(self)@.placed_in(start, layout));
        }
        region
    }

    /// Tries to serve `layout` out of chunk number `c`; where that has no room the
    /// arena stays as it is.
    fn try_chunk(&mut self, c: usize, layout: Layout) -> (placed: Option<Region>)
        requires
            old(self)@.wf(),
            layout.wf(),
            c < old(self)@.chunks.len(),
        ensures
            final(self)@.wf(),
            placed is Some <==> old(self)@.chunks[c as int].fits(layout),
            placed matches Some(region) ==> {
                &&& region == old(self)@.next_region(c as int, layout)
                &&& final(self)@ == old(self)@.carved(c as int, layout)
                &&& final(self)@.holds(region)
            },
            placed is None ==> final(self)@ == old(self)@,
    {
        assert(self@.chunks[c as int] == self.chunks@[c as int]@);
        assert(self@.chunks[c as int].wf());
        match self.chunks[c].try_alloc(layout) {
            Some(offset) => {
                let region = Region { chunk: c, offset, layout };
                self.current = Some(c);
                self.spare[c] = false;
                self.live = Ghost(self.live@.push(region));
                proof {
                    lemma_carved_wf(old(self)@, c as int, layout);
                    assert(self@ =~= old(self)@.carved(c as int, layout));
                }
                Some(region)
            },
            None => {
                assert(self@ =~= old(self)@);
                None
            },
        }
    }

    /// Finds room for `layout`: in the chunk that served last, else in the newest
    /// spare chunk that has room, else in a chunk obtained for it.
    pub fn alloc_layout(&mut self, layout: Layout) -> (placed: Result<Region, AllocError>)
        requires
            old(self)@.wf(),
            layout.wf(),
        ensures
            final(self)@.wf(),
            old(self)@.allocated(layout, placed, final(self)@),
            placed matches Ok(region) ==> {
                &&& final(self)@.holds(region)
                &&& final(self)@.live.last() == region
            },
            placed is Ok <==> old(self)@.has_room(layout) || 2 * layout.size() <= isize::MAX,
            placed matches Ok(region) ==> {
                &&& region.layout == layout
                &&& final(self)@.live == old(self)@.live.push(region)
                &&& final(self)@.current == Some(region.chunk)
                &&& final(self)@.chunks[region.chunk as int].len == region.offset + layout.size()
            },
            placed is Err ==> final(self)@ == old(self)@,
            final(self)@.drops == old(self)@.drops,
    {
        proof {
            crate::layout::size_and_padding_fit(layout);
        }
        if let Some(c) = self.current {
            if let Some(region) = self.try_chunk(c, layout) {
                assert(old(self)@.serves(c as int, layout));
                return Ok(region);
            }
        }
        let count: usize = self.chunks.len();
        let mut left: usize = count;
        while left > 0
            invariant
                left <= count,
                count == self.chunks@.len(),
                self@ == old(self)@,
                self@.wf(),
                layout.wf(),
                !self@.current_fits(layout),
                forall|k: int| left <= k ==> !(#[trigger] self@.spare_fits(k, layout)),
            decreases left,
        {
            let newest: usize = left - 1;
            if self.spare[newest] {
                if let Some(region) = self.try_chunk(newest, layout) {
                    assert(old(self)@.spare_fits(newest as int, layout));
                    assert(old(self)@.serves(newest as int, layout));
                    return Ok(region);
                }
            }
            left = newest;
        }
        assert(!old(self)@.has_room(layout));
        let size: usize = chunk_size_for(layout);
        if size > usize::MAX / 2 {
            return Err(AllocError::ChunkSizeOverflow);
        }
        let fresh = Chunk::new(size);
        proof {
            lemma_fresh_fits(layout, fresh@);
        }
        Ok(self.place_in(fresh, layout))
    }

    /// Writes `value` into `region`, whose size it has.
    pub fn store(&mut self, region: Region, value: &[u8])
        requires
            old(self)@.wf(),
            old(self)@.live.contains(region),
            value@.len() == region.layout.size(),
        ensures
            final(self)@.wf(),
            final(self)@ == old(self)@.written(region, value@),
            final(self)@.chunks[region.chunk as int].bytes.subrange(
                region.offset as int,
                region.offset + region.layout.size(),
            ) == value@,
            final(self)@.live == old(self)@.live,
            final(self)@.drops == old(self)@.drops,
    {
        proof {
            lemma_live_is_held(old(self)@, region);
        }
        assert(self@.chunks[region.chunk as int] == self.chunks@[region.chunk as int]@);
        self.chunks[region.chunk].write(region.offset, value);
        proof {
            lemma_written_wf(old(self)@, region, value@);
            assert(self@.chunks =~= old(self)@.written(region, value@).chunks);
            assert(self@.contents(region) =~= value@);
        }
    }

    /// The bytes of `region`.
    pub fn load(&self, region: Region) -> (value: &[u8])
        requires
            self@.wf(),
            self@.live.contains(region),
        ensures
            value@ == self@.contents(region),
            value@ == self@.chunks[region.chunk as int].bytes.subrange(
                region.offset as int,
                region.offset + region.layout.size(),
            ),
    {
        proof {
            lemma_live_is_held(self@, region);
        }
        self.chunks[region.chunk].bytes(region.offset, region.layout.size())
    }

    /// The whole block of chunk number `chunk`, used or not, to write to.
    pub fn block_mut(&mut self, chunk: usize) -> (block: &mut [u8])
        requires
            old(self)@.wf(),
            chunk < old(self)@.chunks.len(),
        ensures
            block@ == old(self)@.chunks[chunk as int].bytes,
            final(self)@ == old(self)@.reblocked(chunk as int, final(block)@),
            final(block)@.len() == block@.len() ==> old(self)@.reblocked(
                chunk as int,
                final(block)@,
            ).wf(),
    {
        assert(self@.chunks[chunk as int] == self.chunks@[chunk as int]@);
        assert forall|bytes: Seq<u8>|
            bytes.len() == old(self)@.chunks[chunk as int].bytes.len() implies (
        #[trigger] old(self)@.reblocked(chunk as int, bytes)).wf() by {
            lemma_reblocked_wf(old(self)@, chunk as int, bytes);
        }
        self.chunks[chunk].block_mut()
    }

    /// Address of the first byte of `region`.
    pub fn address(&self, region: Region) -> (addr: usize)
        requires
            self@.wf(),
            self@.live.contains(region),
        ensures
            addr == self@.address_of(region),
            addr == self@.chunks[region.chunk as int].base + region.offset,
            addr % region.layout.align() == 0,
    {
        proof {
            lemma_live_is_held(self@, region);
        }
        self.chunks[region.chunk].base() + region.offset
    }

    /// Has the arena owe `destructor` for the value in `region`.
    pub fn register_drop(&mut self, region: Region, destructor: D)
        requires
            old(self)@.wf(),
            old(self)@.live.contains(region),
        ensures
            final(self)@.wf(),
            final(self)@ == old(self)@.owing(region, destructor),
            final(self)@.drops.len() == old(self)@.drops.len() + 1,
            final(self)@.drops.drop_last() == old(self)@.drops,
            final(self)@.drops.last().region == region,
            final(self)@.drops.last().destructor == destructor,
            final(self)@.drops.last().address == old(self)@.chunks[region.chunk as int].base
                + region.offset,
            final(self)@.chunks == old(self)@.chunks,
            final(self)@.current == old(self)@.current,
            final(self)@.spare == old(self)@.spare,
            final(self)@.live == old(self)@.live,
    {
        let address: usize = self.address(region);
        self.drops.push_front(DropEntry { region, address, destructor });
        assert(self@.drops =~= old(self)@.owing(region, destructor).drops);
        assert(self@.drops.drop_last() =~= old(self)@.drops);
    }

    /// Moves a value, given as its bytes, into the arena: finds room for it,
    /// writes it there, and has the arena owe its destructor, if it has one.
    pub fn allocate(&mut self, layout: Layout, value: &[u8], destructor: Option<D>) -> (placed: Result<
        Region,
        AllocError,
    >)
        requires
            old(self)@.wf(),
            layout.wf(),
            value@.len() == layout.size(),
        ensures
            final(self)@.wf(),
            old(self)@.stored(layout, value@, destructor, placed, final(self)@),
            placed matches Ok(region) ==> {
                &&& final(self)@.holds(region)
                &&& final(self)@.live.last() == region
                &&& final(self)@.contents(region) == value@
            },
            placed is Ok <==> old(self)@.has_room(layout) || 2 * layout.size() <= isize::MAX,
            placed matches Ok(region) ==> {
                &&& region.layout == layout
                &&& final(self)@.live == old(self)@.live.push(region)
                &&& final(self)@.chunks[region.chunk as int].bytes.subrange(
                    region.offset as int,
                    region.offset + layout.size(),
                ) == value@
                &&& match destructor {
                    Some(destructor) => {
                        &&& final(self)@.drops.len() == old(self)@.drops.len() + 1
                        &&& final(self)@.drops.drop_last() == old(self)@.drops
                        &&& final(self)@.drops.last().region == region
                        &&& final(self)@.drops.last().destructor == destructor
                        &&& final(self)@.drops.last().address
                            == final(self)@.chunks[region.chunk as int].base + region.offset
                    },
                    None => final(self)@.drops == old(self)@.drops,
                }
            },
            placed is Err ==> final(self)@ == old(self)@,
    {
        let region = match self.alloc_layout(layout) {
            Ok(region) => region,
            Err(error) => {
                return Err(error);
            },
        };
        let ghost carved = self@;
        assert(carved.live.last() == region);
        self.store(region, value);
        assert(self@.contents(region) =~= value@);
        if let Some(destructor) = destructor {
            self.register_drop(region, destructor);
        }
        proof {
            assert(old(self)@.allocated(layout, Ok::<Region, AllocError>(region), carved));
        }
        Ok(region)
    }

    /// Takes the destructors owed out of the arena, the newest first.
    fn take_drops(&mut self) -> (order: VecDeque<DropEntry<D>>)
        requires
            old(self)@.wf(),
        ensures
            final(self)@.wf(),
            final(self)@ == old(self)@.settled(),
            order@ == old(self)@.drops.reverse(),
    {
        let mut order: VecDeque<DropEntry<D>> = VecDeque::new();
        std::mem::swap(&mut order, &mut self.drops);
        assert(self@.drops =~= Seq::empty());
        assert forall|i: int| 0 <= i < self@.live.len() implies self@.holds(
            #[trigger] self@.live[i],
        ) by {
            assert(old(self)@.holds(old(self)@.live[i]));
        }
        assert(order@ =~= old(self)@.drops.reverse());
        order
    }

    /// Gives up every destructor owed, in the order in which they are to run:
    /// the newest first, as local variables are destroyed.
    pub fn run_drops(&mut self) -> (owed: Owed<'_, D>)
        requires
            old(self)@.wf(),
        ensures
            final(self)@.wf(),
            final(self)@ == old(self)@.settled(),
            owed@ == old(self)@.drops.reverse(),
            owed@.len() == old(self)@.drops.len(),
            forall|i: int|
                0 <= i < owed@.len() ==> #[trigger] owed@[i] == old(self)@.drops[owed@.len() - 1
                    - i],
            final(self)@.drops.len() == 0,
            final(self)@.chunks == old(self)@.chunks,
            final(self)@.current == old(self)@.current,
            final(self)@.spare == old(self)@.spare,
            final(self)@.live == old(self)@.live,
    {
        let order = self.take_drops();
        Owed { order, arena: PhantomData }
    }

    /// Gives up every destructor owed, in the order in which they are to run,
    /// and rewinds every chunk, so that the memory serves new allocations
    /// without going back to the system allocator. No region handed out before
    /// is live afterwards.
    pub fn reset(&mut self) -> (owed: Owed<'_, D>)
        requires
            old(self)@.wf(),
        ensures
            final(self)@.wf(),
            final(self)@ == old(self)@.rewound(),
            owed@ == old(self)@.drops.reverse(),
            owed@.len() == old(self)@.drops.len(),
            forall|i: int|
                0 <= i < owed@.len() ==> #[trigger] owed@[i] == old(self)@.drops[owed@.len() - 1
                    - i],
            final(self)@.drops.len() == 0,
            final(self)@.live.len() == 0,
            final(self)@.current is None,
            final(self)@.chunks.len() == old(self)@.chunks.len(),
            final(self)@.spare.len() == old(self)@.chunks.len(),
            forall|i: int|
                0 <= i < old(self)@.chunks.len() ==> {
                    &&& #[trigger] final(self)@.chunks[i] == (ChunkView {
                        len: 0,
                        ..old(self)@.chunks[i]
                    })
                    &&& final(self)@.spare[i]
                },
    {
        let order = self.take_drops();
        assert(self@.drops.len() == self.drops@.len());
        let count: usize = self.chunks.len();
        let mut i: usize = 0;
        while i < count
            invariant
                i <= count,
                count == self.chunks@.len(),
                count == old(self)@.chunks.len(),
                count == self.spare@.len(),
                self.drops@.len() == 0,
                forall|k: int| 0 <= k < i ==> #[trigger] self.spare@[k],
                forall|k: int| 0 <= k < count ==> (#[trigger] old(self)@.chunks[k]).wf(),
                forall|k: int|
                    0 <= k < count ==> (#[trigger] self.chunks@[k])@ == (if k < i {
                        old(self)@.chunks[k].rewound()
                    } else {
                        old(self)@.chunks[k]
                    }),
            decreases count - i,
        {
            assert(old(self)@.chunks[i as int].wf());
            self.chunks[i].rewind();
            self.spare[i] = true;
            i = i + 1;
        }
        self.current = None;
        self.live = Ghost(Seq::empty());
        proof {
            assert(self@ =~= old(self)@.rewound());
        }
        Owed { order, arena: PhantomData }
    }

    /// Ends the arena: gives up every destructor owed, in the order in which they
    /// are to run, and the chunks, to be freed after that. As the pair is dropped
    /// its first half goes first.
    pub fn close(self) -> (ended: (VecDeque<DropEntry<D>>, Vec<Chunk>))
        requires
            self@.wf(),
        ensures
            ended.0@ == self@.drops.reverse(),
            ended.1@.map_values(|c: Chunk| c@) == self@.chunks,
    {
        let Arena { drops, chunks, .. } = self;
        assert(drops@ =~= self@.drops.reverse());
        (drops, chunks)
    }

    /// Number of chunks currently backing this arena.
    pub fn chunk_count(&self) -> (count: usize)
        ensures
            count == self@.chunks.len(),
    {
        self.chunks.len()
    }
}

impl<D> Default for Arena<D> {
    fn default() -> (arena: Arena<D>)
        ensures
            arena@.wf(),
            arena@ == ArenaView::<D>::empty(),
            arena@.chunks.len() == 0,
            arena@.current is None,
            arena@.spare.len() == 0,
            arena@.drops.len() == 0,
            arena@.live.len() == 0,
    {
        Arena::new()
    }
}

} // verus!
