//! What holds of every arena, whatever is done with it.
use crate::arena::{AllocError, ArenaView, DropEntry, Region};
use crate::chunk::ChunkView;
use crate::layout::Layout;
use vstd::prelude::*;

verus! {

/// An allocation, whether it succeeds or not, keeps the arena well formed; what
/// was handed out before stays handed out, in the same order, and a success adds
/// the region that it gives back. A chunk that was there keeps its address and
/// its bytes. At most one chunk is added, and only where neither the chunk that
/// served last nor a spare one has room.
pub proof fn allocation_adds_one_region<D>(
    before: ArenaView<D>,
    layout: Layout,
    result: Result<Region, AllocError>,
    after: ArenaView<D>,
)
    requires
        before.wf(),
        layout.wf(),
        before.allocated(layout, result, after),
        after.chunks.len() <= usize::MAX,
    ensures
        after.wf(),
        result matches Ok(region) ==> {
            &&& after.live == before.live.push(region)
            &&& after.holds(region)
            &&& region.layout == layout
            &&& after.chunks.len() == before.chunks.len() + (if before.has_room(layout) {
                0int
            } else {
                1int
            })
        },
        result is Err ==> after == before,
        result is Ok <==> before.has_room(layout) || 2 * layout.size() <= isize::MAX,
        after.drops == before.drops,
        forall|k: int|
            0 <= k < before.chunks.len() ==> {
                &&& (#[trigger] after.chunks[k]).base == before.chunks[k].base
                &&& after.chunks[k].bytes == before.chunks[k].bytes
            },
{
    crate::layout::size_and_padding_fit(layout);
    if before.has_room(layout) {
        let c = choose|c: int|
            {
                &&& #[trigger] before.serves(c, layout)
                &&& after == before.carved(c, layout)
                &&& result == Ok::<Region, AllocError>(before.next_region(c, layout))
            };
        crate::arena::lemma_carved_wf(before, c, layout);
    } else if crate::arena::chunk_size(layout) <= isize::MAX {
        let fresh = choose|fresh: ChunkView|
            {
                &&& #[trigger] fresh.fresh(crate::arena::chunk_size(layout))
                &&& fresh.fits(layout)
                &&& after == before.placed_in(fresh, layout)
                &&& result == Ok::<Region, AllocError>(after.live.last())
            };
        crate::arena::lemma_grown_wf(before, fresh);
        crate::arena::lemma_carved_wf(before.grown(fresh), before.chunks.len() as int, layout);
    }
}

/// The chunk that serves is carved, and no other chunk changes.
pub proof fn one_chunk_serves<D>(
    before: ArenaView<D>,
    c: int,
    layout: Layout,
    result: Result<Region, AllocError>,
    after: ArenaView<D>,
)
    requires
        before.wf(),
        before.allocated(layout, result, after),
        before.serves(c, layout),
    ensures
        result == Ok::<Region, AllocError>(before.next_region(c, layout)),
        after == before.carved(c, layout),
        after.chunks.len() == before.chunks.len(),
        forall|k: int|
            0 <= k < before.chunks.len() && k != c ==> #[trigger] after.chunks[k]
                == before.chunks[k],
{
    if !before.current_fits(layout) {
        assert(before.spare_fits(c, layout));
    }
    assert(before.has_room(layout));
    let s = choose|s: int|
        {
            &&& #[trigger] before.serves(s, layout)
            &&& after == before.carved(s, layout)
            &&& result == Ok::<Region, AllocError>(before.next_region(s, layout))
        };
    if !before.current_fits(layout) {
        assert(before.spare_fits(s, layout));
        if s < c {
            assert(!before.spare_fits(c, layout));
        } else if c < s {
            assert(!before.spare_fits(s, layout));
        }
    }
}

/// Where the chunk that served last, or a spare one, has room, such a chunk
/// serves, and none is obtained.
pub proof fn no_growth_while_there_is_room<D>(
    before: ArenaView<D>,
    layout: Layout,
    result: Result<Region, AllocError>,
    after: ArenaView<D>,
)
    requires
        before.wf(),
        before.allocated(layout, result, after),
        before.has_room(layout),
    ensures
        result is Ok,
        after.chunks.len() == before.chunks.len(),
        exists|s: int| #[trigger] before.serves(s, layout),
{
    if before.current_fits(layout) {
        assert(before.serves(before.current->0 as int, layout));
    } else {
        let c = choose|c: int| #[trigger] before.spare_fits(c, layout);
        crate::arena::lemma_some_spare_serves(before, c, layout);
    }
    let s = choose|s: int| #[trigger] before.serves(s, layout);
    one_chunk_serves(before, s, layout, result, after);
}

/// No chunk is spare, and the newest one served last.
pub open spec fn never_rewound<D>(arena: ArenaView<D>) -> bool {
    &&& forall|i: int| 0 <= i < arena.spare.len() ==> !#[trigger] arena.spare[i]
    &&& arena.current == (if arena.chunks.len() == 0 {
        None
    } else {
        Some((arena.chunks.len() - 1) as usize)
    })
}

/// In an arena that was never reset the newest chunk alone serves, and the arena
/// grows as soon as that one has no room; and an allocation leaves it so.
pub proof fn newest_chunk_serves_until_reset<D>(
    before: ArenaView<D>,
    layout: Layout,
    result: Result<Region, AllocError>,
    after: ArenaView<D>,
)
    requires
        before.wf(),
        layout.wf(),
        never_rewound(before),
        before.allocated(layout, result, after),
        after.chunks.len() <= usize::MAX,
    ensures
        never_rewound(ArenaView::<D>::empty()),
        never_rewound(after),
        before.has_room(layout) <==> before.chunks.len() > 0 && before.chunks.last().fits(layout),
        result matches Ok(region) ==> region.chunk == after.chunks.len() - 1,
{
    allocation_adds_one_region(before, layout, result, after);
    assert forall|k: int| !#[trigger] before.spare_fits(k, layout) by {}
    if before.has_room(layout) {
        no_growth_while_there_is_room(before, layout, result, after);
        let s = choose|s: int| #[trigger] before.serves(s, layout);
        one_chunk_serves(before, s, layout, result, after);
    }
}

/// No byte belongs to two regions handed out since the arena was created or
/// reset.
pub proof fn regions_never_overlap<D>(arena: ArenaView<D>, i: int, j: int, chunk: int, at: int)
    requires
        arena.wf(),
        0 <= i < arena.live.len(),
        0 <= j < arena.live.len(),
        i != j,
    ensures
        !(arena.live[i].covers(chunk, at) && arena.live[j].covers(chunk, at)),
{
    if i < j {
        assert(arena.live[i].disjoint(arena.live[j]));
    } else {
        assert(arena.live[j].disjoint(arena.live[i]));
    }
}

/// Two calls never give overlapping memory: a region that is live is disjoint
/// from what a later allocation gives back.
pub proof fn allocations_are_disjoint<D>(
    before: ArenaView<D>,
    earlier: Region,
    layout: Layout,
    later: Region,
    after: ArenaView<D>,
)
    requires
        before.wf(),
        before.live.contains(earlier),
        layout.wf(),
        before.allocated(layout, Ok::<Region, AllocError>(later), after),
        after.chunks.len() <= usize::MAX,
    ensures
        earlier.disjoint(later),
        after.live.contains(earlier),
        after.live.contains(later),
{
    allocation_adds_one_region(before, layout, Ok::<Region, AllocError>(later), after);
    let k = choose|k: int| 0 <= k < before.live.len() && before.live[k] == earlier;
    assert(after.live[k] == earlier);
    assert(after.live[before.live.len() as int] == later);
    assert(after.live[k].disjoint(after.live[before.live.len() as int]));
}

/// An allocation leaves what was handed out before where it is and as it is:
/// same address, same bytes.
pub proof fn allocation_keeps_contents<D>(
    before: ArenaView<D>,
    region: Region,
    layout: Layout,
    result: Result<Region, AllocError>,
    after: ArenaView<D>,
)
    requires
        before.wf(),
        before.live.contains(region),
        layout.wf(),
        before.allocated(layout, result, after),
        after.chunks.len() <= usize::MAX,
    ensures
        after.contents(region) == before.contents(region),
        after.address_of(region) == before.address_of(region),
        after.live.contains(region),
{
    crate::arena::lemma_live_is_held(before, region);
    allocation_adds_one_region(before, layout, result, after);
    let k = choose|k: int| 0 <= k < before.live.len() && before.live[k] == region;
    assert(after.live[k] == region);
    assert(after.chunks[region.chunk as int].base == before.chunks[region.chunk as int].base);
}

/// A region gives back what was last written into it.
pub proof fn write_is_read_back<D>(arena: ArenaView<D>, region: Region, value: Seq<u8>)
    requires
        arena.wf(),
        arena.live.contains(region),
        value.len() == region.layout.size(),
    ensures
        arena.written(region, value).contents(region) == value,
{
    crate::arena::lemma_live_is_held(arena, region);
    assert(arena.written(region, value).contents(region) =~= value);
}

/// Writing into one region leaves every other one as it is.
pub proof fn write_keeps_other_regions<D>(arena: ArenaView<D>, i: int, j: int, value: Seq<u8>)
    requires
        arena.wf(),
        0 <= i < arena.live.len(),
        0 <= j < arena.live.len(),
        i != j,
        value.len() == arena.live[i].layout.size(),
    ensures
        arena.written(arena.live[i], value).contents(arena.live[j]) == arena.contents(
            arena.live[j],
        ),
{
    assert(arena.holds(arena.live[i]));
    assert(arena.holds(arena.live[j]));
    if i < j {
        assert(arena.live[i].disjoint(arena.live[j]));
    } else {
        assert(arena.live[j].disjoint(arena.live[i]));
    }
    assert(arena.written(arena.live[i], value).contents(arena.live[j]) =~= arena.contents(
        arena.live[j],
    ));
}

/// Moving another value in leaves the arena well formed and every value that is
/// already there where it is and as it is; the new value is where its region
/// says.
pub proof fn moving_in_keeps_values<D>(
    before: ArenaView<D>,
    region: Region,
    layout: Layout,
    value: Seq<u8>,
    destructor: Option<D>,
    result: Result<Region, AllocError>,
    after: ArenaView<D>,
)
    requires
        before.wf(),
        before.live.contains(region),
        layout.wf(),
        value.len() == layout.size(),
        before.stored(layout, value, destructor, result, after),
        after.chunks.len() <= usize::MAX,
    ensures
        after.wf(),
        after.live.contains(region),
        after.contents(region) == before.contents(region),
        after.address_of(region) == before.address_of(region),
        result matches Ok(new) ==> after.contents(new) == value,
{
    match result {
        Ok(new) => {
            let carved = choose|carved: ArenaView<D>|
                {
                    &&& #[trigger] before.allocated(layout, result, carved)
                    &&& after == (match destructor {
                        Some(destructor) => carved.written(new, value).owing(new, destructor),
                        None => carved.written(new, value),
                    })
                };
            allocation_adds_one_region(before, layout, result, carved);
            allocation_keeps_contents(before, region, layout, result, carved);
            let i = before.live.len() as int;
            let j = choose|j: int| 0 <= j < before.live.len() && before.live[j] == region;
            assert(carved.live[i] == new);
            assert(carved.live[j] == region);
            crate::arena::lemma_written_wf(carved, new, value);
            write_keeps_other_regions(carved, i, j, value);
            write_is_read_back(carved, new, value);
            assert(after.contents(region) == carved.written(new, value).contents(region));
        },
        Err(_) => {
            allocation_adds_one_region(before, layout, result, after);
        },
    }
}

/// Some value is moved into the arena, or an attempt at it fails.
pub open spec fn moved_in<D>(before: ArenaView<D>, after: ArenaView<D>) -> bool {
    exists|
        layout: Layout,
        value: Seq<u8>,
        destructor: Option<D>,
        result: Result<Region, AllocError>,
    |
        {
            &&& layout.wf()
            &&& value.len() == layout.size()
            &&& #[trigger] before.stored(layout, value, destructor, result, after)
        }
}

/// A value stays where it is and as it is for as long as the arena is not reset,
/// however many others are moved in after it.
pub proof fn values_stay_until_reset<D>(run: Seq<ArenaView<D>>, region: Region)
    requires
        run.len() > 0,
        run[0].wf(),
        run[0].live.contains(region),
        forall|i: int| 0 <= i < run.len() - 1 ==> moved_in(#[trigger] run[i], run[i + 1]),
        forall|i: int| 0 <= i < run.len() ==> (#[trigger] run[i]).chunks.len() <= usize::MAX,
    ensures
        run.last().wf(),
        run.last().live.contains(region),
        run.last().contents(region) == run[0].contents(region),
        run.last().address_of(region) == run[0].address_of(region),
    decreases run.len(),
{
    if run.len() > 1 {
        let shorter = run.drop_last();
        assert forall|i: int| 0 <= i < shorter.len() - 1 implies moved_in(
            #[trigger] shorter[i],
            shorter[i + 1],
        ) by {
            assert(moved_in(run[i], run[i + 1]));
        }
        values_stay_until_reset(shorter, region);
        let before = run[run.len() - 2];
        let after = run[run.len() - 1];
        assert(shorter.last() == before);
        assert(moved_in(before, run[run.len() - 2 + 1]));
        let (layout, value, destructor, result) = choose|
            layout: Layout,
            value: Seq<u8>,
            destructor: Option<D>,
            result: Result<Region, AllocError>,
        |
            {
                &&& layout.wf()
                &&& value.len() == layout.size()
                &&& #[trigger] before.stored(layout, value, destructor, result, after)
            };
        moving_in_keeps_values(before, region, layout, value, destructor, result, after);
    }
}

/// A freshly obtained chunk always holds the allocation that it was sized for, at
/// whatever address it starts.
pub proof fn fresh_chunk_fits(layout: Layout, fresh: ChunkView)
    requires
        layout.wf(),
        fresh.fresh(crate::arena::chunk_size(layout)),
    ensures
        fresh.fits(layout),
{
    crate::arena::lemma_fresh_fits(layout, fresh);
}

/// A chunk is at least of the default size, and of twice the size that it was
/// obtained for. It is the larger of the two where the alignment is at most the
/// size asked for, or nothing is asked for and the alignment is at most the
/// default size. Only where twice the size is too much for a block of memory is
/// the chunk too large.
pub proof fn chunks_are_at_least_doubled(layout: Layout)
    requires
        layout.wf(),
    ensures
        crate::arena::chunk_size(layout) >= crate::arena::DEFAULT_CHUNK_SIZE,
        crate::arena::chunk_size(layout) >= 2 * layout.size(),
        layout.align() <= layout.size() || layout.size() == 0 && layout.align()
            <= crate::arena::DEFAULT_CHUNK_SIZE ==> crate::arena::chunk_size(layout)
            == vstd::math::max(crate::arena::DEFAULT_CHUNK_SIZE as int, 2 * layout.size()),
        crate::arena::chunk_size(layout) > isize::MAX <==> 2 * layout.size() > isize::MAX,
{
    crate::layout::size_and_padding_fit(layout);
}

/// A reset keeps every chunk, with its address and its bytes, and leaves
/// nothing handed out and no destructor owed.
pub proof fn reset_keeps_memory<D>(arena: ArenaView<D>, i: int)
    requires
        arena.wf(),
        0 <= i < arena.chunks.len(),
    ensures
        arena.rewound().wf(),
        arena.rewound().chunks.len() == arena.chunks.len(),
        arena.rewound().chunks[i].base == arena.chunks[i].base,
        arena.rewound().chunks[i].bytes == arena.chunks[i].bytes,
        arena.rewound().chunks[i].len == 0,
        arena.rewound().live.len() == 0,
        arena.rewound().drops.len() == 0,
{
    assert forall|k: int| 0 <= k < arena.chunks.len() implies (
    #[trigger] arena.rewound().chunks[k]).wf() by {
        assert(arena.chunks[k].wf());
    }
}

/// After a reset every chunk can serve again: no chunk is obtained for an
/// allocation that any of them has room for, and a chunk has room for what takes
/// no more than its size with the most padding.
pub proof fn reset_allows_reuse<D>(
    arena: ArenaView<D>,
    c: int,
    layout: Layout,
    result: Result<Region, AllocError>,
    after: ArenaView<D>,
)
    requires
        arena.wf(),
        0 <= c < arena.chunks.len(),
        layout.wf(),
        layout.size() + layout.align() - 1 <= arena.chunks[c].bytes.len(),
        arena.rewound().allocated(layout, result, after),
    ensures
        result is Ok,
        arena.rewound().spare_fits(c, layout),
        after.chunks.len() == arena.chunks.len(),
{
    reset_keeps_memory(arena, c);
    assert(arena.chunks[c].wf());
    assert(arena.rewound().chunks[c] == arena.chunks[c].rewound());
    crate::layout::padding_is_least(arena.chunks[c].base, layout.align() as int);
    assert(arena.rewound().spare_fits(c, layout));
    no_growth_while_there_is_room(arena.rewound(), layout, result, after);
}

/// How many unused bytes chunk number `i` has to give: none where it is neither
/// spare nor the one that served last.
pub open spec fn bytes_left_in<D>(arena: ArenaView<D>, i: int) -> int {
    if arena.spare[i] || arena.current == Some(i as usize) {
        arena.chunks[i].bytes.len() - arena.chunks[i].len
    } else {
        0
    }
}

/// How many unused bytes the first `n` chunks have to give.
pub open spec fn bytes_left<D>(arena: ArenaView<D>, n: int) -> int
    decreases n,
{
    if n <= 0 {
        0
    } else {
        bytes_left(arena, n - 1) + bytes_left_in(arena, n - 1)
    }
}

/// Where one chunk has one byte less to give, all together have.
proof fn lemma_one_byte_less<D>(before: ArenaView<D>, after: ArenaView<D>, s: int, n: int)
    requires
        forall|i: int|
            0 <= i < n ==> #[trigger] bytes_left_in(after, i) == bytes_left_in(before, i) - (if i
                == s {
                1int
            } else {
                0int
            }),
        0 <= s,
    ensures
        bytes_left(after, n) == bytes_left(before, n) - (if s < n {
            1int
        } else {
            0int
        }),
    decreases n,
{
    if n > 0 {
        lemma_one_byte_less(before, after, s, n - 1);
        assert(bytes_left_in(after, n - 1) == bytes_left_in(before, n - 1) - (if n - 1 == s {
            1int
        } else {
            0int
        }));
    }
}

/// Where there are bytes to give, some chunk has them.
proof fn lemma_room_is_somewhere<D>(arena: ArenaView<D>, n: int) -> (c: int)
    requires
        bytes_left(arena, n) > 0,
    ensures
        0 <= c < n,
        bytes_left_in(arena, c) > 0,
    decreases n,
{
    if bytes_left_in(arena, n - 1) > 0 {
        n - 1
    } else {
        lemma_room_is_somewhere(arena, n - 1)
    }
}

/// Single bytes use up all memory there is to give before a chunk is obtained:
/// while the chunk that served last or a spare one has an unused byte, moving one
/// more byte in takes one of those.
pub proof fn bytes_use_all_memory<D>(
    before: ArenaView<D>,
    layout: Layout,
    result: Result<Region, AllocError>,
    after: ArenaView<D>,
)
    requires
        before.wf(),
        layout.wf(),
        layout.size() == 1,
        layout.align() == 1,
        before.allocated(layout, result, after),
        bytes_left(before, before.chunks.len() as int) > 0,
    ensures
        result is Ok,
        after.chunks.len() == before.chunks.len(),
        bytes_left(after, after.chunks.len() as int) == bytes_left(
            before,
            before.chunks.len() as int,
        ) - 1,
{
    let n = before.chunks.len() as int;
    assert forall|i: int| 0 <= i < n implies (#[trigger] before.chunks[i]).offset_for(layout)
        == before.chunks[i].len by {
        assert((before.chunks[i].base + before.chunks[i].len) % 1 == 0);
    }
    let c = lemma_room_is_somewhere(before, n);
    assert(before.chunks[c].fits(layout));
    if before.spare[c] {
        assert(before.spare_fits(c, layout));
    }
    no_growth_while_there_is_room(before, layout, result, after);
    let s = choose|s: int| #[trigger] before.serves(s, layout);
    if !before.current_fits(layout) {
        assert(before.spare_fits(s, layout));
    }
    one_chunk_serves(before, s, layout, result, after);
    assert forall|i: int| 0 <= i < n implies #[trigger] bytes_left_in(after, i) == bytes_left_in(
        before,
        i,
    ) - (if i == s {
        1int
    } else {
        0int
    }) by {
        assert(before.chunks[i].wf());
        if i != s && before.current == Some(i as usize) {
            assert(!before.chunks[i].fits(layout));
        }
    }
    lemma_one_byte_less(before, after, s, n);
}

/// A reset makes all memory of the arena available again.
pub proof fn reset_frees_all_memory<D>(arena: ArenaView<D>)
    ensures
        bytes_left(arena.rewound(), arena.chunks.len() as int) == total_bytes(
            arena.chunks,
            arena.chunks.len() as int,
        ),
{
    lemma_rewound_bytes_left(arena, arena.chunks.len() as int);
}

/// Memory that a reset has rewound serves new allocations before any is obtained:
/// as many single bytes as all chunks together hold can be moved in after a
/// reset, and the number of chunks stays.
pub proof fn refilling_obtains_no_chunk<D>(
    arena: ArenaView<D>,
    layout: Layout,
    run: Seq<ArenaView<D>>,
)
    requires
        arena.wf(),
        layout.wf(),
        layout.size() == 1,
        layout.align() == 1,
        0 < run.len() <= total_bytes(arena.chunks, arena.chunks.len() as int) + 1,
        run[0] == arena.rewound(),
        forall|i: int|
            0 <= i < run.len() - 1 ==> room_taken(#[trigger] run[i], layout, run[i + 1]),
    ensures
        run.last().wf(),
        run.last().chunks.len() == arena.chunks.len(),
        bytes_left(run.last(), arena.chunks.len() as int) == total_bytes(
            arena.chunks,
            arena.chunks.len() as int,
        ) - (run.len() - 1),
    decreases run.len(),
{
    reset_frees_all_memory(arena);
    if run.len() == 1 {
        if arena.chunks.len() > 0 {
            reset_keeps_memory(arena, 0);
        }
    } else {
        let shorter = run.drop_last();
        assert forall|i: int| 0 <= i < shorter.len() - 1 implies room_taken(
            #[trigger] shorter[i],
            layout,
            shorter[i + 1],
        ) by {
            assert(room_taken(run[i], layout, run[i + 1]));
        }
        refilling_obtains_no_chunk(arena, layout, shorter);
        let i = run.len() - 2;
        assert(shorter.last() == run[i]);
        assert(room_taken(run[i], layout, run[i + 1]));
        let result = choose|result: Result<Region, AllocError>| #[trigger]
            run[i].allocated(layout, result, run[i + 1]);
        bytes_use_all_memory(run[i], layout, result, run[i + 1]);
        allocation_adds_one_region(run[i], layout, result, run[i + 1]);
    }
}

/// Room for one value is taken, or refused.
pub open spec fn room_taken<D>(
    before: ArenaView<D>,
    layout: Layout,
    after: ArenaView<D>,
) -> bool {
    exists|result: Result<Region, AllocError>| #[trigger] before.allocated(layout, result, after)
}

/// The memory of the first `n` chunks, used or not.
pub open spec fn total_bytes(chunks: Seq<ChunkView>, n: int) -> int
    decreases n,
{
    if n <= 0 {
        0
    } else {
        total_bytes(chunks, n - 1) + chunks[n - 1].bytes.len()
    }
}

/// With nothing in use, what there is to give is all there is.
proof fn lemma_rewound_bytes_left<D>(arena: ArenaView<D>, n: int)
    requires
        n <= arena.chunks.len(),
    ensures
        bytes_left(arena.rewound(), n) == total_bytes(arena.chunks, n),
    decreases n,
{
    if n > 0 {
        lemma_rewound_bytes_left(arena, n - 1);
        assert(arena.rewound().chunks[n - 1] == arena.chunks[n - 1].rewound());
    }
}

/// Every destructor owed is given up exactly once, and a destructor registered
/// later comes before one registered earlier.
pub proof fn destructors_run_once_newest_first<D>(
    arena: ArenaView<D>,
    order: Seq<DropEntry<D>>,
    i: int,
    j: int,
)
    requires
        order == arena.drops.reverse(),
        0 <= i < j < arena.drops.len(),
    ensures
        order.len() == arena.drops.len(),
        order[order.len() - 1 - i] == arena.drops[i],
        order[order.len() - 1 - j] == arena.drops[j],
        order.len() - 1 - j < order.len() - 1 - i,
        arena.settled().drops.len() == 0,
        arena.rewound().drops.len() == 0,
{
}

/// A destructor is only ever owed for a value whose region is live.
pub proof fn destructors_are_for_live_regions<D>(arena: ArenaView<D>, i: int)
    requires
        arena.wf(),
        0 <= i < arena.drops.len(),
    ensures
        arena.live.contains(arena.drops[i].region),
        arena.holds(arena.drops[i].region),
{
    crate::arena::lemma_live_is_held(arena, arena.drops[i].region);
}

/// At offset `at`, behind the bytes in use, an allocation would start at an
/// aligned address and end within the block.
pub open spec fn room_at(chunk: ChunkView, layout: Layout, at: int) -> bool {
    &&& chunk.len <= at
    &&& (chunk.base + at) % layout.align() as int == 0
    &&& at + layout.size() <= chunk.bytes.len()
}

/// The unused tail of a chunk has an aligned place for an allocation.
pub open spec fn room_in(chunk: ChunkView, layout: Layout) -> bool {
    exists|at: int| #[trigger] room_at(chunk, layout, at)
}

/// Chunk number `c` may serve: it served last, or it is spare.
pub open spec fn may_serve<D>(arena: ArenaView<D>, c: int) -> bool {
    &&& 0 <= c < arena.chunks.len()
    &&& arena.current == Some(c as usize) || arena.spare[c]
}

/// A chunk has room for an allocation just where some aligned place behind the
/// bytes in use is large enough.
pub proof fn a_chunk_fits_where_there_is_room(chunk: ChunkView, layout: Layout)
    requires
        layout.align() > 0,
    ensures
        chunk.fits(layout) <==> room_in(chunk, layout),
{
    crate::chunk::first_aligned_offset(chunk, layout);
    if chunk.fits(layout) {
        assert(room_at(chunk, layout, chunk.offset_for(layout)));
    } else if room_in(chunk, layout) {
        let at = choose|at: int| #[trigger] room_at(chunk, layout, at);
        assert((chunk.base + at) % layout.align() as int == 0);
    }
}

/// The arena has room for an allocation just where the chunk that served last or
/// a spare one has an aligned place for it.
pub proof fn the_arena_has_room_where_a_chunk_has<D>(arena: ArenaView<D>, layout: Layout)
    requires
        arena.wf(),
        layout.wf(),
    ensures
        arena.has_room(layout) <==> exists|c: int|
            #[trigger] may_serve(arena, c) && room_in(arena.chunks[c], layout),
{
    if arena.current_fits(layout) {
        let c = arena.current->0 as int;
        a_chunk_fits_where_there_is_room(arena.chunks[c], layout);
        assert(may_serve(arena, c));
    } else if arena.has_room(layout) {
        let c = choose|c: int| #[trigger] arena.spare_fits(c, layout);
        a_chunk_fits_where_there_is_room(arena.chunks[c], layout);
        assert(may_serve(arena, c));
    } else if exists|c: int| #[trigger] may_serve(arena, c) && room_in(arena.chunks[c], layout) {
        let c = choose|c: int| #[trigger] may_serve(arena, c) && room_in(arena.chunks[c], layout);
        a_chunk_fits_where_there_is_room(arena.chunks[c], layout);
        if arena.spare[c] {
            assert(arena.spare_fits(c, layout));
        }
    }
}

/// What an allocation gives back starts at the first aligned place behind the
/// bytes in use of its chunk and ends where the bytes in use then end. Every
/// other chunk stays as it is. An old chunk keeps its address and its bytes; a
/// new one has nothing but the region in use. A refused allocation changes
/// nothing.
pub proof fn an_allocation_takes_the_first_aligned_place<D>(
    before: ArenaView<D>,
    layout: Layout,
    result: Result<Region, AllocError>,
    after: ArenaView<D>,
)
    requires
        before.wf(),
        layout.wf(),
        before.allocated(layout, result, after),
        after.chunks.len() <= usize::MAX,
    ensures
        result is Err ==> after == before,
        after.drops == before.drops,
        result matches Ok(region) ==> {
            let c = region.chunk as int;
            let used = if c < before.chunks.len() {
                before.chunks[c].len
            } else {
                0
            };
            &&& region.layout == layout
            &&& after.live == before.live.push(region)
            &&& after.current == Some(region.chunk)
            &&& c < after.chunks.len()
            &&& after.spare.len() == after.chunks.len()
            &&& !after.spare[c]
            &&& after.chunks[c].len == region.offset + layout.size()
            &&& after.chunks[c].len <= after.chunks[c].bytes.len()
            &&& used <= region.offset
            &&& (after.chunks[c].base + region.offset) % layout.align() as int == 0
            &&& forall|k: int|
                used <= k < region.offset ==> #[trigger] ((after.chunks[c].base + k)
                    % layout.align() as int) != 0
            &&& forall|k: int|
                0 <= k < before.chunks.len() && k != c ==> {
                    &&& #[trigger] after.chunks[k] == before.chunks[k]
                    &&& after.spare[k] == before.spare[k]
                }
            &&& c < before.chunks.len() ==> {
                &&& after.chunks.len() == before.chunks.len()
                &&& after.chunks[c].base == before.chunks[c].base
                &&& after.chunks[c].bytes == before.chunks[c].bytes
                &&& after.chunks[c].home == before.chunks[c].home
            }
            &&& c >= before.chunks.len() ==> {
                &&& c == before.chunks.len()
                &&& after.chunks.len() == before.chunks.len() + 1
                &&& forall|k: int|
                    0 <= k < after.chunks[c].bytes.len() ==> #[trigger] after.chunks[c].bytes[k]
                        == 0
            }
        },
{
    crate::layout::size_and_padding_fit(layout);
    allocation_adds_one_region(before, layout, result, after);
    if before.has_room(layout) {
        let c = choose|c: int|
            {
                &&& #[trigger] before.serves(c, layout)
                &&& after == before.carved(c, layout)
                &&& result == Ok::<Region, AllocError>(before.next_region(c, layout))
            };
        crate::chunk::first_aligned_offset(before.chunks[c], layout);
        crate::arena::lemma_carved_wf(before, c, layout);
    } else if crate::arena::chunk_size(layout) <= isize::MAX {
        let fresh = choose|fresh: ChunkView|
            {
                &&& #[trigger] fresh.fresh(crate::arena::chunk_size(layout))
                &&& fresh.fits(layout)
                &&& after == before.placed_in(fresh, layout)
                &&& result == Ok::<Region, AllocError>(after.live.last())
            };
        let n = before.chunks.len() as int;
        crate::chunk::first_aligned_offset(fresh, layout);
        crate::arena::lemma_grown_wf(before, fresh);
        crate::arena::lemma_carved_wf(before.grown(fresh), n, layout);
        assert(before.grown(fresh).chunks[n] == fresh);
    }
}

/// Which chunk an allocation is taken from: the one that served last where it
/// has room; else the newest spare one that has; else a new one, of a size of
/// which the default, twice the size asked for and the size with the most
/// padding are lower bounds, and one of them exact. It is refused only where none
/// has room and twice the size asked for is too much for a block of memory.
pub proof fn which_chunk_an_allocation_is_from<D>(
    before: ArenaView<D>,
    layout: Layout,
    result: Result<Region, AllocError>,
    after: ArenaView<D>,
)
    requires
        before.wf(),
        layout.wf(),
        before.allocated(layout, result, after),
        after.chunks.len() <= usize::MAX,
    ensures
        before.current matches Some(c) ==> room_in(before.chunks[c as int], layout) ==> {
            result matches Ok(region) && region.chunk == c
        },
        forall|c: int|
            0 <= c < before.chunks.len() && #[trigger] before.spare[c] && room_in(
                before.chunks[c],
                layout,
            ) ==> {
                result matches Ok(region) && region.chunk < before.chunks.len() && (c
                    <= region.chunk || before.current == Some(region.chunk))
            },
        result matches Ok(region) ==> region.chunk < before.chunks.len() ==> {
            &&& room_in(before.chunks[region.chunk as int], layout)
            &&& may_serve(before, region.chunk as int)
        },
        result matches Ok(region) ==> region.chunk >= before.chunks.len() ==> {
            let size = after.chunks[region.chunk as int].bytes.len();
            &&& size >= 4096
            &&& size >= 2 * layout.size()
            &&& size >= layout.size() + layout.align() - 1
            &&& size == 4096 || size == 2 * layout.size() || size == layout.size() + layout.align()
                - 1
        },
        result is Err <==> 2 * layout.size() > isize::MAX && forall|c: int|
            #[trigger] may_serve(before, c) ==> !room_in(before.chunks[c], layout),
{
    crate::layout::size_and_padding_fit(layout);
    allocation_adds_one_region(before, layout, result, after);
    the_arena_has_room_where_a_chunk_has(before, layout);
    assert forall|c: int| 0 <= c < before.chunks.len() implies (#[trigger] before.chunks[c]).fits(
        layout,
    ) == room_in(before.chunks[c], layout) by {
        a_chunk_fits_where_there_is_room(before.chunks[c], layout);
    }
    if before.has_room(layout) {
        let s = choose|s: int|
            {
                &&& #[trigger] before.serves(s, layout)
                &&& after == before.carved(s, layout)
                &&& result == Ok::<Region, AllocError>(before.next_region(s, layout))
            };
        assert forall|c: int|
            0 <= c < before.chunks.len() && #[trigger] before.spare[c] && room_in(
                before.chunks[c],
                layout,
            ) implies c <= s || before.current == Some(s as usize) by {
            assert(before.spare_fits(c, layout));
        }
        assert(may_serve(before, s));
    } else {
        assert forall|c: int| 0 <= c < before.chunks.len() && #[trigger] before.spare[c] implies
            !room_in(before.chunks[c], layout) by {
            assert(may_serve(before, c));
        }
    }
}

/// An allocation that succeeds, followed by another, gives two regions of which
/// the later one, where they share a chunk, starts at or behind the end of the
/// earlier one.
pub proof fn later_regions_lie_behind<D>(
    before: ArenaView<D>,
    first: Layout,
    earlier: Region,
    between: ArenaView<D>,
    second: Layout,
    later: Region,
    after: ArenaView<D>,
)
    requires
        before.wf(),
        first.wf(),
        second.wf(),
        before.allocated(first, Ok::<Region, AllocError>(earlier), between),
        between.allocated(second, Ok::<Region, AllocError>(later), after),
        between.chunks.len() <= usize::MAX,
        after.chunks.len() <= usize::MAX,
    ensures
        earlier.chunk <= later.chunk || before.spare[later.chunk as int],
        earlier.chunk == later.chunk ==> earlier.offset + first.size() <= later.offset,
{
    allocation_adds_one_region(before, first, Ok::<Region, AllocError>(earlier), between);
    an_allocation_takes_the_first_aligned_place(
        before,
        first,
        Ok::<Region, AllocError>(earlier),
        between,
    );
    an_allocation_takes_the_first_aligned_place(
        between,
        second,
        Ok::<Region, AllocError>(later),
        after,
    );
    which_chunk_an_allocation_is_from(between, second, Ok::<Region, AllocError>(later), after);
}

/// A registered destructor joins those that the arena owes, behind all of them,
/// however many there are, and nothing else changes.
pub proof fn every_registered_destructor_is_owed<D>(
    arena: ArenaView<D>,
    region: Region,
    destructor: D,
)
    requires
        arena.wf(),
        arena.live.contains(region),
    ensures
        arena.owing(region, destructor).drops.len() == arena.drops.len() + 1,
        arena.owing(region, destructor).drops.drop_last() == arena.drops,
        arena.owing(region, destructor).drops.last().region == region,
        arena.owing(region, destructor).drops.last().destructor == destructor,
        arena.owing(region, destructor).drops.last().address
            == arena.chunks[region.chunk as int].base + region.offset,
        arena.owing(region, destructor).chunks == arena.chunks,
        arena.owing(region, destructor).current == arena.current,
        arena.owing(region, destructor).spare == arena.spare,
        arena.owing(region, destructor).live == arena.live,
{
    crate::arena::lemma_live_is_held(arena, region);
    assert(arena.owing(region, destructor).drops.drop_last() =~= arena.drops);
}

/// A value moved in with a destructor is owed that destructor; one moved in
/// without is owed none. The destructors owed before stay owed, in their order.
pub proof fn moving_in_owes_the_given_destructor<D>(
    before: ArenaView<D>,
    layout: Layout,
    value: Seq<u8>,
    destructor: Option<D>,
    result: Result<Region, AllocError>,
    after: ArenaView<D>,
)
    requires
        before.wf(),
        layout.wf(),
        value.len() == layout.size(),
        before.stored(layout, value, destructor, result, after),
        after.chunks.len() <= usize::MAX,
    ensures
        result is Err ==> after == before,
        result matches Ok(region) ==> {
            &&& after.live == before.live.push(region)
            &&& match destructor {
                Some(destructor) => {
                    &&& after.drops.len() == before.drops.len() + 1
                    &&& after.drops.drop_last() == before.drops
                    &&& after.drops.last().region == region
                    &&& after.drops.last().destructor == destructor
                },
                None => after.drops == before.drops,
            }
        },
{
    match result {
        Ok(region) => {
            let carved = choose|carved: ArenaView<D>|
                {
                    &&& #[trigger] before.allocated(layout, result, carved)
                    &&& after == (match destructor {
                        Some(destructor) => carved.written(region, value).owing(region, destructor),
                        None => carved.written(region, value),
                    })
                };
            allocation_adds_one_region(before, layout, result, carved);
            assert(carved.live[before.live.len() as int] == region);
            crate::arena::lemma_written_wf(carved, region, value);
            if let Some(destructor) = destructor {
                every_registered_destructor_is_owed(
                    carved.written(region, value),
                    region,
                    destructor,
                );
            }
        },
        Err(_) => {
            allocation_adds_one_region(before, layout, result, after);
        },
    }
}

/// Giving up the destructors leaves none owed and changes nothing else.
pub proof fn giving_up_destructors_keeps_values<D>(arena: ArenaView<D>)
    ensures
        arena.settled().drops.len() == 0,
        arena.settled().chunks == arena.chunks,
        arena.settled().current == arena.current,
        arena.settled().spare == arena.spare,
        arena.settled().live == arena.live,
{
}

/// A reset leaves every chunk, rewound and spare, with its bytes, and nothing
/// else of what was there.
pub proof fn reset_rewinds_every_chunk<D>(arena: ArenaView<D>)
    ensures
        arena.rewound().chunks.len() == arena.chunks.len(),
        arena.rewound().spare.len() == arena.chunks.len(),
        forall|i: int|
            0 <= i < arena.chunks.len() ==> {
                &&& (#[trigger] arena.rewound().chunks[i]).len == 0
                &&& arena.rewound().chunks[i].home == arena.chunks[i].home
                &&& arena.rewound().chunks[i].base == arena.chunks[i].base
                &&& arena.rewound().chunks[i].bytes == arena.chunks[i].bytes
                &&& arena.rewound().spare[i]
            },
        arena.rewound().current is None,
        arena.rewound().live.len() == 0,
        arena.rewound().drops.len() == 0,
{
}

/// A write puts the value at the start of its region and leaves every other byte
/// of the arena, and everything else, as it is.
pub proof fn a_write_touches_its_region_alone<D>(
    arena: ArenaView<D>,
    region: Region,
    value: Seq<u8>,
)
    requires
        arena.wf(),
        arena.live.contains(region),
        value.len() == region.layout.size(),
    ensures
        arena.written(region, value).chunks.len() == arena.chunks.len(),
        forall|c: int, at: int|
            0 <= c < arena.chunks.len() && 0 <= at < arena.chunks[c].bytes.len()
                ==> #[trigger] arena.written(region, value).chunks[c].bytes[at] == (if c
                == region.chunk && region.offset <= at < region.offset + value.len() {
                value[at - region.offset]
            } else {
                arena.chunks[c].bytes[at]
            }),
        forall|c: int|
            0 <= c < arena.chunks.len() ==> {
                &&& (#[trigger] arena.written(region, value).chunks[c]).len == arena.chunks[c].len
                &&& arena.written(region, value).chunks[c].base == arena.chunks[c].base
                &&& arena.written(region, value).chunks[c].home == arena.chunks[c].home
                &&& arena.written(region, value).chunks[c].bytes.len()
                    == arena.chunks[c].bytes.len()
            },
        arena.written(region, value).current == arena.current,
        arena.written(region, value).spare == arena.spare,
        arena.written(region, value).drops == arena.drops,
        arena.written(region, value).live == arena.live,
{
    crate::arena::lemma_live_is_held(arena, region);
}

/// New bytes for one chunk replace its bytes and nothing else.
pub proof fn new_bytes_replace_one_block<D>(arena: ArenaView<D>, c: int, bytes: Seq<u8>)
    requires
        0 <= c < arena.chunks.len(),
    ensures
        arena.reblocked(c, bytes).chunks.len() == arena.chunks.len(),
        arena.reblocked(c, bytes).chunks[c].bytes == bytes,
        arena.reblocked(c, bytes).chunks[c].len == arena.chunks[c].len,
        arena.reblocked(c, bytes).chunks[c].base == arena.chunks[c].base,
        arena.reblocked(c, bytes).chunks[c].home == arena.chunks[c].home,
        forall|k: int|
            0 <= k < arena.chunks.len() && k != c ==> #[trigger] arena.reblocked(
                c,
                bytes,
            ).chunks[k] == arena.chunks[k],
        arena.reblocked(c, bytes).current == arena.current,
        arena.reblocked(c, bytes).spare == arena.spare,
        arena.reblocked(c, bytes).drops == arena.drops,
        arena.reblocked(c, bytes).live == arena.live,
{
}

/// What is read of a live region is the bytes of its chunk from its offset on, as
/// many as its size.
pub proof fn contents_are_the_regions_bytes<D>(arena: ArenaView<D>, region: Region)
    requires
        arena.wf(),
        arena.live.contains(region),
    ensures
        arena.contents(region).len() == region.layout.size(),
        forall|i: int|
            0 <= i < region.layout.size() ==> #[trigger] arena.contents(region)[i]
                == arena.chunks[region.chunk as int].bytes[region.offset + i],
        arena.address_of(region) == arena.chunks[region.chunk as int].base + region.offset,
        arena.address_of(region) % region.layout.align() as int == 0,
        region.offset + region.layout.size() <= arena.chunks[region.chunk as int].len,
{
    crate::arena::lemma_live_is_held(arena, region);
}

/// Two regions of a size other than zero are disjoint just where no byte belongs
/// to both.
pub proof fn disjoint_regions_share_no_byte(a: Region, b: Region)
    requires
        a.layout.size() > 0,
        b.layout.size() > 0,
    ensures
        a.disjoint(b) <==> forall|chunk: int, at: int|
            !(#[trigger] a.covers(chunk, at) && #[trigger] b.covers(chunk, at)),
        forall|chunk: int, at: int|
            #[trigger] a.covers(chunk, at) <==> chunk == a.chunk && a.offset <= at < a.offset
                + a.layout.size(),
{
    if !a.disjoint(b) {
        let at = if a.offset < b.offset {
            b.offset as int
        } else {
            a.offset as int
        };
        assert(a.covers(a.chunk as int, at) && b.covers(a.chunk as int, at));
    }
}

/// An empty arena has nothing at all.
pub proof fn an_empty_arena_has_nothing<D>()
    ensures
        ArenaView::<D>::empty().chunks.len() == 0,
        ArenaView::<D>::empty().current is None,
        ArenaView::<D>::empty().spare.len() == 0,
        ArenaView::<D>::empty().drops.len() == 0,
        ArenaView::<D>::empty().live.len() == 0,
{
}

} // verus!
