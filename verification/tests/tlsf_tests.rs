use blueos_core::heap::Heap;
use blueos_core::layout::Layout;
use blueos_core::tlsf::{Tlsf, TLSF_GRANULARITY, TLSF_HDR_SIZE};
use blueos_core::tlsf_lists::FreeLists;
use blueos_core::tlsf_map::{highest_bit, map_ceil, map_floor, CLASSES, FLLEN, MIN_SIZE, SLLEN};

fn layout(size: usize, align: usize) -> Layout {
    Layout::from_size_align(size, align).unwrap()
}

#[test]
fn classes_follow_the_highest_bit_and_the_six_bits_below() {
    assert_eq!(highest_bit(1), (0, 1));
    assert_eq!(highest_bit(32), (5, 32));
    assert_eq!(highest_bit(63), (5, 32));
    assert_eq!(highest_bit(64), (6, 64));
    assert_eq!(highest_bit(usize::MAX), (63, 1 << 63));
    assert_eq!(map_floor(32), 0);
    assert_eq!(map_floor(33), 2);
    assert_eq!(map_floor(64), 64);
    assert_eq!(map_floor(65), 65);
    assert_eq!(map_floor(127), 127);
    assert_eq!(map_floor(128), 128);
    assert_eq!(map_floor(129), 128);
    assert_eq!(map_floor(130), 129);
    assert_eq!(map_floor(4096), 7 * 64);
    assert_eq!(map_floor(4096 + 63), 7 * 64);
    assert_eq!(map_floor(4096 + 64), 7 * 64 + 1);
    assert_eq!(map_floor(8191), 7 * 64 + 63);
    assert_eq!(map_floor(usize::MAX), 58 * 64 + 63);
    assert!(map_floor(usize::MAX) < CLASSES);
    // the class that is searched holds no size below the request
    assert_eq!(map_ceil(32), 0);
    assert_eq!(map_ceil(64), 64);
    assert_eq!(map_ceil(128), 128);
    assert_eq!(map_ceil(129), 129);
    assert_eq!(map_ceil(130), 129);
    assert_eq!(map_ceil(131), 130);
    assert_eq!(map_ceil(4096), 7 * 64);
    assert_eq!(map_ceil(4097), 7 * 64 + 1);
    assert_eq!(map_ceil(4096 + 64), 7 * 64 + 1);
    assert_eq!(map_ceil(8191), 8 * 64);
    assert_eq!(map_ceil(usize::MAX), 59 * 64);
    assert_eq!((FLLEN, SLLEN, CLASSES, MIN_SIZE), (64, 64, 4096, 32));
}

#[test]
fn free_lists_give_out_the_lowest_class_that_holds_a_block() {
    let mut lists = FreeLists::new();
    assert_eq!(lists.find(0), None);
    lists.insert(70, 0x1000);
    lists.insert(70, 0x2000);
    lists.insert(3000, 0x3000);
    assert!(lists.is_empty(69));
    assert!(!lists.is_empty(70));
    assert_eq!(lists.find(0), Some(70));
    assert_eq!(lists.find(70), Some(70));
    assert_eq!(lists.find(71), Some(3000));
    assert_eq!(lists.find(3001), None);
    assert_eq!(lists.find(5000), None);
    // the block that came last goes first
    assert_eq!(lists.head(70), 0x2000);
    lists.remove(70, 0x1000);
    assert_eq!(lists.head(70), 0x2000);
    lists.remove(70, 0x2000);
    assert!(lists.is_empty(70));
    assert_eq!(lists.find(0), Some(3000));
    lists.remove(3000, 0x3000);
    assert_eq!(lists.find(0), None);
}

#[test]
fn allocation_splits_a_block_and_freeing_merges_it() {
    let mut tlsf = Tlsf::new();
    assert_eq!(tlsf.total(), 0);
    assert_eq!(tlsf.allocate(&layout(8, 8)), None);
    tlsf.insert_free_block_ptr(0x10000, 4096);
    assert_eq!(tlsf.total(), 4096);
    assert_eq!(tlsf.allocated(), 0);
    let a = tlsf.allocate(&layout(8, 8)).unwrap();
    assert_eq!(a, 0x10010);
    assert_eq!(tlsf.allocated(), 32);
    let b = tlsf.allocate(&layout(100, 8)).unwrap();
    assert_eq!(b, 0x10030);
    assert_eq!(tlsf.allocated(), 32 + 128);
    let c = tlsf.allocate(&layout(7, 64)).unwrap();
    // behind the first two blocks, on the next boundary of 64 bytes that
    // leaves room for the header
    assert_eq!(c, 0x100c0);
    assert_eq!(tlsf.allocated(), 32 + 128 + 64);
    assert_eq!(tlsf.maximum(), 224);
    tlsf.write_payload(b, 0x1234);
    tlsf.write_payload(b + 104, 0x5678);
    assert_eq!(tlsf.read_payload(b), 0x1234);
    tlsf.deallocate(b, 8);
    assert_eq!(tlsf.allocated(), 96);
    // the freed block serves a request that fits it
    let d = tlsf.allocate(&layout(100, 8)).unwrap();
    assert_eq!(d, b);
    tlsf.deallocate(a, 8);
    tlsf.deallocate_unknown_align(c);
    tlsf.deallocate_unknown_align(d);
    assert_eq!(tlsf.allocated(), 0);
    assert_eq!(tlsf.maximum(), 224);
    // the pool is one block again
    let whole = tlsf.allocate(&layout(4096 - 32, 16)).unwrap();
    assert_eq!(whole, 0x10010);
    assert_eq!(tlsf.allocated(), 4096);
    assert_eq!(tlsf.allocate(&layout(1, 1)), None);
    assert_eq!((TLSF_GRANULARITY, TLSF_HDR_SIZE), (32, 16));
}

#[test]
fn allocation_beyond_what_is_free_is_refused() {
    let mut tlsf = Tlsf::new();
    tlsf.insert_free_block_ptr(0x8000, 1024);
    let a = tlsf.allocate(&layout(500, 8)).unwrap();
    assert_eq!(tlsf.allocated(), 544);
    assert_eq!(tlsf.allocate(&layout(1024 - 544, 8)), None);
    assert_eq!(tlsf.allocate(&layout(usize::MAX / 4, 8)), None);
    assert_eq!(tlsf.allocate(&layout(0, 8)), None);
    assert_eq!(tlsf.allocated(), 544);
    assert_eq!(tlsf.maximum(), 544);
    assert_eq!(tlsf.deallocate(a, 8), ());
    assert_eq!(tlsf.allocated(), 0);
}

#[test]
fn pool_is_cut_to_granules() {
    let mut tlsf = Tlsf::new();
    tlsf.insert_free_block_ptr(0x8001, 200);
    // from 0x8020 on: 169 bytes, which hold five granules
    assert_eq!(tlsf.total(), 160);
    assert_eq!(tlsf.allocate(&layout(100, 8)), Some(0x8030));
}

/// Numbers without a pattern: a linear congruential generator.
struct Lcg(u64);

impl Lcg {
    fn next(&mut self) -> u64 {
        self.0 = self.0.wrapping_mul(6364136223846793005).wrapping_add(1442695040888963407);
        self.0 >> 33
    }
}

#[test]
fn many_allocations_and_frees_leave_nothing_allocated() {
    let mut heap = Heap::new();
    heap.init(0x100000, 64 * 1024);
    let total = heap.memory_info().total;
    assert_eq!(total, 64 * 1024);
    let mut rng = Lcg(42);
    let aligns = [1usize, 8, 64];
    let mut live: Vec<(usize, Layout)> = Vec::new();
    let mut peak = 0;
    for round in 0..10_000 {
        let size = 1 + (rng.next() % 4096) as usize;
        let align = aligns[(rng.next() % 3) as usize];
        let l = layout(size, align);
        if let Some(ptr) = heap.allocate(l) {
            assert_eq!(ptr % align, 0);
            for (other, ol) in &live {
                assert!(ptr + size <= *other || *other + ol.size() <= ptr);
            }
            live.push((ptr, l));
        }
        let info = heap.memory_info();
        assert!(info.used <= info.total);
        peak = peak.max(info.used);
        assert!(info.max_used >= peak);
        assert!(info.max_used <= info.total);
        // free a block now and then, and more often when memory is short
        if !live.is_empty() && (round % 2 == 1 || info.used * 2 > info.total) {
            let i = (rng.next() as usize) % live.len();
            let (ptr, l) = live.swap_remove(i);
            if round % 3 == 0 {
                heap.deallocate_unknown_align(ptr);
            } else {
                heap.dealloc(ptr, l);
            }
        }
    }
    for (ptr, l) in live {
        heap.dealloc(ptr, l);
    }
    let info = heap.memory_info();
    assert_eq!(info.used, 0);
    assert_eq!(info.total, total);
    assert!(info.max_used >= peak);
    assert_eq!(info.max_used, peak);
    // all of the memory is one block again
    assert!(heap.allocate(layout(64 * 1024 - 16, 8)).is_some());
}

#[test]
fn reallocation_keeps_grows_or_moves_the_block() {
    let mut tlsf = Tlsf::new();
    tlsf.insert_free_block_ptr(0x10000, 1024);
    let a = tlsf.allocate(&layout(40, 8)).unwrap();
    assert_eq!(a, 0x10010);
    assert_eq!(tlsf.allocated(), 64);
    for k in 0..5 {
        tlsf.write_payload(a + 8 * k, 0x1000 + k);
    }
    // the block holds 48 bytes of payload: it stays as it is
    assert_eq!(tlsf.reallocate(a, &layout(48, 8)), Some(a));
    assert_eq!(tlsf.allocated(), 64);
    // the block behind is free: the block grows where it is
    assert_eq!(tlsf.reallocate(a, &layout(100, 8)), Some(a));
    assert_eq!(tlsf.allocated(), 128);
    for k in 0..5 {
        assert_eq!(tlsf.read_payload(a + 8 * k), 0x1000 + k);
    }
    // a block behind it is in the way: the payload moves
    let b = tlsf.allocate(&layout(8, 8)).unwrap();
    assert_eq!(b, 0x10090);
    let moved = tlsf.reallocate(a, &layout(200, 8)).unwrap();
    assert_eq!(moved, 0x100b0);
    for k in 0..5 {
        assert_eq!(tlsf.read_payload(moved + 8 * k), 0x1000 + k);
    }
    assert_eq!(tlsf.allocated(), 32 + 224);
    // the old block is free again and serves the next request
    assert_eq!(tlsf.allocate(&layout(100, 8)), Some(a));
    // no block is large enough: nothing changes
    assert_eq!(tlsf.reallocate(moved, &layout(2000, 8)), None);
    assert_eq!(tlsf.allocated(), 32 + 224 + 128);
    assert_eq!(tlsf.read_payload(moved), 0x1000);
    // without the alignment the header is found from the payload
    assert_eq!(tlsf.reallocate_unknown_align(moved, 300), Some(moved));
    assert_eq!(tlsf.allocated(), 32 + 320 + 128);
    assert_eq!(tlsf.reallocate_unknown_align(moved, usize::MAX), None);
    tlsf.deallocate_unknown_align(moved);
    tlsf.deallocate(a, 8);
    tlsf.deallocate(b, 8);
    assert_eq!(tlsf.allocated(), 0);
    assert_eq!(tlsf.allocate(&layout(1024 - 16, 8)), Some(0x10010));
}

#[test]
fn heap_reallocates_with_the_alignment_of_the_block() {
    let mut heap = Heap::new();
    heap.init(0x40000, 4096);
    let l = layout(24, 64);
    let p = heap.allocate(l).unwrap();
    assert_eq!(p, 0x40040);
    heap.write_word(p, 11);
    heap.write_word(p + 16, 33);
    let q = heap.realloc(p, l, 500).unwrap();
    assert_eq!(q, p);
    assert_eq!(heap.read_word(q), 11);
    assert_eq!(heap.read_word(q + 16), 33);
    assert_eq!(heap.memory_info().used, 0x40 + 512);
    assert_eq!(heap.realloc(q, l, usize::MAX - 100), None);
    let r = heap.realloc_unknown_align(q, 16).unwrap();
    assert_eq!(r, q);
    heap.dealloc(r, l);
    assert_eq!(heap.memory_info().used, 0);
    assert_eq!(heap.memory_info().max_used, 0x40 + 512);
}
