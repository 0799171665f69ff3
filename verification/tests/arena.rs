use rust_internals::arena::{chunk_size_for, AllocError, Arena, Region, DEFAULT_CHUNK_SIZE};
use rust_internals::chunk::Chunk;
use rust_internals::layout::{align_offset, Layout};
use std::cell::{Cell, RefCell};
use std::rc::Rc;

fn layout(size: usize, align: usize) -> Layout {
    Layout::from_size_align(size, align).unwrap()
}

fn store_i32<D>(arena: &mut Arena<D>, value: i32) -> Region {
    arena.allocate(Layout::new::<i32>(), &value.to_ne_bytes(), None).unwrap()
}

fn load_i32<D>(arena: &Arena<D>, region: Region) -> i32 {
    let bytes = arena.load(region);
    i32::from_ne_bytes([bytes[0], bytes[1], bytes[2], bytes[3]])
}

/// A destructor that records into a shared counter when it is dropped.
struct Counted(Rc<Cell<i32>>);

impl Drop for Counted {
    fn drop(&mut self) {
        self.0.set(self.0.get() + 1);
    }
}

/// A destructor that writes its number down when it is dropped.
struct Numbered(Rc<RefCell<Vec<u32>>>, u32);

impl Drop for Numbered {
    fn drop(&mut self) {
        self.0.borrow_mut().push(self.1);
    }
}

fn keep<D>(arena: &mut Arena<D>, destructor: D) -> Region {
    let layout = Layout::new::<usize>();
    arena.allocate(layout, &vec![0u8; layout.size()], Some(destructor)).unwrap()
}

#[test]
fn stores_and_returns_correct_values() {
    let mut arena: Arena<()> = Arena::new();
    let a = store_i32(&mut arena, 41);
    let b = arena.allocate(layout(5, 1), "hello".as_bytes(), None).unwrap();
    let mut elements: Vec<u8> = Vec::new();
    for x in vec![1i32, 2, 3] {
        elements.extend_from_slice(&x.to_ne_bytes());
    }
    let c = arena.allocate(layout(12, 4), &elements, None).unwrap();

    assert_eq!(load_i32(&arena, a), 41);
    assert_eq!(std::str::from_utf8(arena.load(b)).unwrap(), "hello");
    let read: Vec<i32> = arena
        .load(c)
        .chunks(4)
        .map(|x| i32::from_ne_bytes([x[0], x[1], x[2], x[3]]))
        .collect();
    assert_eq!(read, vec![1, 2, 3]);
}

#[test]
fn respects_type_alignment() {
    let mut arena: Arena<()> = Arena::new();
    for i in 0..8u8 {
        let mut bytes = vec![0u8; 64];
        bytes[0] = i;
        let region = arena.allocate(layout(64, 64), &bytes, None).unwrap();
        assert_eq!(arena.address(region) % 64, 0);
        assert_eq!(arena.load(region).as_ptr() as usize % 64, 0);
        assert_eq!(arena.load(region)[0], i);
    }
}

#[test]
fn allocates_many_disjoint_values_across_chunk_growth() {
    let mut arena: Arena<()> = Arena::new();
    let mut regions: Vec<Region> = Vec::new();
    for i in 0..2000 {
        regions.push(store_i32(&mut arena, i));
    }
    for (i, region) in regions.iter().enumerate() {
        assert_eq!(load_i32(&arena, *region), i as i32);
    }
    assert!(arena.chunk_count() > 1, "expected chunk growth, got {} chunk(s)", arena.chunk_count());

    for (i, a) in regions.iter().enumerate() {
        for b in &regions[i + 1..] {
            assert!(a.chunk != b.chunk || a.offset + 4 <= b.offset || b.offset + 4 <= a.offset);
        }
    }
}

#[test]
fn drop_glue_runs_when_arena_drops() {
    let counter = Rc::new(Cell::new(0));
    {
        let mut arena: Arena<Counted> = Arena::new();
        for _ in 0..5 {
            keep(&mut arena, Counted(counter.clone()));
        }
        assert_eq!(counter.get(), 0, "destructors shouldn't run before the arena drops");
    }
    assert_eq!(counter.get(), 5);
}

#[test]
fn reset_runs_drops_and_allows_reuse() {
    let counter = Rc::new(Cell::new(0));
    let mut arena: Arena<Counted> = Arena::new();

    for _ in 0..3 {
        keep(&mut arena, Counted(counter.clone()));
    }
    arena.reset();
    assert_eq!(counter.get(), 3);

    // The chunk memory should still be usable after a reset.
    let value = store_i32(&mut arena, 99);
    assert_eq!(load_i32(&arena, value), 99);
    assert_eq!(arena.chunk_count(), 1);

    for _ in 0..2 {
        keep(&mut arena, Counted(counter.clone()));
    }
    drop(arena);
    assert_eq!(counter.get(), 5);
}

#[test]
fn destructors_run_newest_first() {
    let log = Rc::new(RefCell::new(Vec::new()));
    let mut arena: Arena<Numbered> = Arena::default();
    for n in 1..4 {
        keep(&mut arena, Numbered(log.clone(), n));
    }
    let mut owed = arena.reset();
    assert_eq!(owed.len(), 3);
    assert!(log.borrow().is_empty());
    let newest = owed.next().unwrap();
    assert_eq!(newest.destructor.1, 3);
    drop(newest);
    drop(owed);
    assert_eq!(*log.borrow(), vec![3, 2, 1]);

    for n in 4..7 {
        keep(&mut arena, Numbered(log.clone(), n));
    }
    drop(arena);
    assert_eq!(*log.borrow(), vec![3, 2, 1, 6, 5, 4]);
}

#[test]
fn a_destructor_is_given_up_once() {
    let counter = Rc::new(Cell::new(0));
    let mut arena: Arena<Counted> = Arena::new();
    let region = keep(&mut arena, Counted(counter.clone()));
    let mut owed = arena.run_drops();
    let entry = owed.next().unwrap();
    assert_eq!(entry.region, region);
    assert!(owed.next().is_none());
    drop(owed);
    assert_eq!(arena.run_drops().len(), 0);
    assert_eq!(counter.get(), 0);
    drop(entry);
    drop(arena);
    assert_eq!(counter.get(), 1);
}

#[test]
fn registered_destructors_name_their_region() {
    let mut arena: Arena<u8> = Arena::new();
    let first = arena.alloc_layout(layout(3, 1)).unwrap();
    let second = arena.alloc_layout(layout(8, 8)).unwrap();
    arena.register_drop(second, 20);
    arena.register_drop(first, 10);
    let places = [arena.address(first), arena.address(second)];
    let mut owed = arena.run_drops();
    let entry = owed.next().unwrap();
    assert_eq!((entry.region, entry.address, entry.destructor), (first, places[0], 10));
    let entry = owed.next().unwrap();
    assert_eq!((entry.region, entry.address, entry.destructor), (second, places[1], 20));
    assert_eq!(owed.len(), 0);
}

#[test]
fn a_new_arena_holds_no_memory() {
    let arena: Arena<()> = Arena::new();
    assert_eq!(arena.chunk_count(), 0);
}

#[test]
fn padding_leads_to_the_next_multiple() {
    assert_eq!(align_offset(0, 8), 0);
    assert_eq!(align_offset(1, 8), 7);
    assert_eq!(align_offset(8, 8), 0);
    assert_eq!(align_offset(4097, 4096), 4095);
    assert_eq!(align_offset(usize::MAX, 1), 0);
    assert_eq!(align_offset(usize::MAX, 2), 1);
}

#[test]
fn layouts_are_checked() {
    assert_eq!(Layout::new::<u64>().size(), 8);
    assert_eq!(Layout::new::<(u8, u32)>().size(), 8);
    assert_eq!(Layout::new::<u8>().align(), 1);
    assert!(Layout::from_size_align(1, 0).is_none());
    assert!(Layout::from_size_align(8, 3).is_none());
    assert!(Layout::from_size_align(8, 24).is_none());
    let largest = isize::MAX as usize;
    assert!(Layout::from_size_align(largest, 1).is_some());
    assert!(Layout::from_size_align(largest, 2).is_none());
    assert!(Layout::from_size_align(largest - 1, 2).is_some());
    assert!(Layout::from_size_align(largest + 1, 1).is_none());
    assert_eq!(layout(24, 8), layout(24, 8));
}

#[test]
fn chunk_sizes_double_above_the_default() {
    assert_eq!(chunk_size_for(layout(0, 1)), DEFAULT_CHUNK_SIZE);
    assert_eq!(chunk_size_for(layout(2048, 1)), 4096);
    assert_eq!(chunk_size_for(layout(2049, 1)), 4098);
    assert_eq!(chunk_size_for(layout(5000, 8)), 10000);
    assert_eq!(chunk_size_for(layout(4096, 4096)), 8192);
    assert_eq!(chunk_size_for(layout(0, 4096)), 4096);
    assert_eq!(chunk_size_for(layout(isize::MAX as usize, 1)), usize::MAX - 1);
}

#[test]
fn chunk_sizes_leave_room_for_a_coarse_alignment() {
    assert_eq!(chunk_size_for(layout(0, 8192)), 8191);
    assert_eq!(chunk_size_for(layout(16, 8192)), 8207);
    assert_eq!(chunk_size_for(layout(8192, 8192)), 16384);
}

#[test]
fn a_chunk_carves_from_its_tail() {
    let mut chunk = Chunk::new(64);
    assert_eq!(chunk.capacity(), 64);
    assert_eq!(chunk.len(), 0);
    assert_eq!(chunk.try_alloc(layout(10, 1)), Some(0));
    assert_eq!(chunk.len(), 10);
    let skip = align_offset(chunk.base() + 10, 16);
    assert_eq!(chunk.try_alloc(layout(16, 16)), Some(10 + skip));
    assert_eq!((chunk.base() + 10 + skip) % 16, 0);
    let used = chunk.len();
    assert_eq!(used, 26 + skip);
    assert_eq!(chunk.try_alloc(layout(65, 1)), None);
    assert_eq!(chunk.len(), used);
    assert_eq!(chunk.try_alloc(layout(isize::MAX as usize, 1)), None);
    assert_eq!(chunk.try_alloc(layout(64 - used, 1)), Some(used));
    assert_eq!(chunk.len(), 64);
    assert_eq!(chunk.try_alloc(layout(0, 1)), Some(64));
    chunk.write(3, &[7, 8]);
    assert_eq!(chunk.bytes(2, 4), &[0, 7, 8, 0]);
    chunk.rewind();
    assert_eq!(chunk.len(), 0);
    assert_eq!(chunk.bytes(3, 2), &[7, 8]);
}

#[test]
fn chunks_do_not_share_addresses() {
    let a = Chunk::new(4096);
    let b = Chunk::new(4096);
    assert_ne!(a.base(), 0);
    assert!(a.base() + 4096 <= b.base() || b.base() + 4096 <= a.base());
}

#[test]
fn an_oversized_value_gets_a_chunk_of_twice_its_size() {
    let mut arena: Arena<()> = Arena::new();
    let big = arena.alloc_layout(layout(5000, 8)).unwrap();
    assert_eq!(big.chunk, 0);
    // A second one still fits; a third does not.
    let skip = align_offset(arena.address(big) + 5000, 1);
    assert_eq!(skip, 0);
    assert_eq!(arena.alloc_layout(layout(4990, 1)).unwrap().chunk, 0);
    assert_eq!(arena.alloc_layout(layout(4990, 1)).unwrap().chunk, 1);
    assert_eq!(arena.chunk_count(), 2);
}

#[test]
fn a_chunk_that_cannot_exist_is_refused() {
    let mut arena: Arena<()> = Arena::new();
    let huge = layout(isize::MAX as usize, 1);
    assert_eq!(arena.alloc_layout(huge), Err(AllocError::ChunkSizeOverflow));
    assert_eq!(arena.chunk_count(), 0);
}

#[test]
fn a_fresh_chunk_fits_whatever_the_alignment() {
    let mut arena: Arena<()> = Arena::new();
    store_i32(&mut arena, 1);
    for shift in 0..21 {
        let coarse = layout(0, 1 << shift);
        let region = arena.allocate(coarse, &[], None).unwrap();
        assert_eq!(arena.address(region) % (1 << shift), 0);
        let region = arena.allocate(layout(3, 1 << shift), &[1, 2, 3], None).unwrap();
        assert_eq!(arena.address(region) % (1 << shift), 0);
        assert_eq!(arena.load(region), &[1, 2, 3]);
    }
}

#[test]
fn a_chunk_at_hand_is_taken_over() {
    let mut arena: Arena<()> = Arena::new();
    let placed = arena.place_in(Chunk::new(8), layout(8, 1));
    assert_eq!((placed.chunk, placed.offset), (0, 0));
    assert_eq!(arena.chunk_count(), 1);
    let placed = arena.place_in(Chunk::new(9), layout(8, 1));
    assert_eq!((placed.chunk, placed.offset), (1, 0));
    assert_eq!(arena.chunk_count(), 2);
}

#[test]
fn the_arena_grows_when_the_newest_chunk_is_full() {
    let mut arena: Arena<()> = Arena::new();
    for size in [1, 4096, 4096, 1] {
        arena.alloc_layout(layout(size, 1)).unwrap();
    }
    assert_eq!(arena.chunk_count(), 3);
}

#[test]
fn spare_chunks_serve_newest_first_after_a_reset() {
    let mut arena: Arena<()> = Arena::new();
    for size in [100, 300, 200] {
        arena.place_in(Chunk::new(size), layout(size, 1));
    }
    arena.reset();
    let mut at = |size: usize| {
        let region = arena.alloc_layout(layout(size, 1)).unwrap();
        (region.chunk, region.offset)
    };
    // The newest spare chunk that has room, passing one that is too small.
    assert_eq!(at(250), (1, 0));
    // The chunk that served last goes on while it has room.
    assert_eq!(at(40), (1, 250));
    // The one passed over is still there.
    assert_eq!(at(150), (2, 0));
    assert_eq!(at(60), (0, 0));
    // Chunk 2 has room, but has had its turn.
    assert_eq!(at(45), (3, 0));
    assert_eq!(arena.chunk_count(), 4);
}

#[test]
fn addresses_are_where_the_bytes_are() {
    let mut arena: Arena<()> = Arena::new();
    for i in 0..200usize {
        let size = 1 + i * 7 % 90;
        let align = 1 << (i % 8);
        let region = arena.allocate(layout(size, align), &vec![3u8; size], None).unwrap();
        assert_eq!(arena.load(region).as_ptr() as usize, arena.address(region));
        assert_eq!(arena.load(region).as_ptr() as usize % align, 0);
    }
    assert!(arena.chunk_count() > 1);
    let chunk = Chunk::new(64);
    assert_eq!(chunk.bytes(0, 64).as_ptr() as usize, chunk.base());
}

#[test]
fn writing_one_value_leaves_the_others() {
    let mut arena: Arena<()> = Arena::new();
    let a = store_i32(&mut arena, 1);
    let b = store_i32(&mut arena, 2);
    arena.store(a, &77i32.to_ne_bytes());
    assert_eq!(load_i32(&arena, a), 77);
    assert_eq!(load_i32(&arena, b), 2);
    arena.allocate(layout(9000, 1), &vec![9u8; 9000], None).unwrap();
    assert_eq!(arena.chunk_count(), 2);
    assert_eq!(load_i32(&arena, a), 77);
    assert_eq!(load_i32(&arena, b), 2);
}

#[test]
fn values_without_size_take_no_room() {
    let mut arena: Arena<()> = Arena::new();
    let a = arena.allocate(Layout::new::<()>(), &[], None).unwrap();
    let b = arena.allocate(Layout::new::<()>(), &[], None).unwrap();
    assert_eq!(a, b);
    assert_eq!(arena.load(a).len(), 0);
}

#[test]
fn all_memory_is_reused_after_a_reset() {
    let mut arena: Arena<()> = Arena::new();
    let byte = Layout::new::<u8>();
    for round in 0..4u8 {
        let mut regions: Vec<Region> = Vec::new();
        for _ in 0..8192 {
            regions.push(arena.allocate(byte, &[round], None).unwrap());
        }
        assert_eq!(arena.chunk_count(), 2);
        for region in regions {
            assert_eq!(arena.load(region), &[round]);
        }
        arena.reset();
        assert_eq!(arena.chunk_count(), 2);
    }
}

#[test]
fn a_closed_arena_gives_up_destructors_and_chunks() {
    let log = Rc::new(RefCell::new(Vec::new()));
    let mut arena: Arena<Numbered> = Arena::new();
    keep(&mut arena, Numbered(log.clone(), 1));
    arena.alloc_layout(layout(5000, 1)).unwrap();
    keep(&mut arena, Numbered(log.clone(), 2));
    let (order, chunks) = arena.close();
    assert_eq!(order.iter().map(|e| e.destructor.1).collect::<Vec<u32>>(), vec![2, 1]);
    assert_eq!(chunks.iter().map(|c| c.capacity()).collect::<Vec<usize>>(), vec![4096, 10000]);
    drop(order);
    assert_eq!(*log.borrow(), vec![2, 1]);
}

#[test]
fn a_block_can_be_written_as_a_whole() {
    let mut arena: Arena<()> = Arena::new();
    let region = store_i32(&mut arena, 7);
    let block = arena.block_mut(region.chunk);
    assert_eq!(block.len(), 4096);
    assert_eq!(block[region.offset..region.offset + 4], 7i32.to_ne_bytes());
    block[region.offset..region.offset + 4].copy_from_slice(&8i32.to_ne_bytes());
    assert_eq!(load_i32(&arena, region), 8);
}
