use blueos_core::arena::Arena;
use blueos_core::block::{
    used_block_hdr_for_allocation, used_block_hdr_for_allocation_unknown_align, GRANULARITY,
    HOLE_ALIGN, SIZE_USED, USED_HDR_SIZE,
};
use blueos_core::hole::{HoleInfo, HoleList};
use blueos_core::layout::{Layout, LayoutError};
use blueos_core::support::{align_down_size, checked_align_up, is_pow2};

fn layout(size: usize, align: usize) -> Layout {
    Layout::from_size_align(size, align).unwrap()
}

fn holes(list: &HoleList) -> Vec<(usize, usize)> {
    list.debug().iter().map(|h| (h.addr, h.size)).collect()
}

#[test]
fn first_fit_reuses_the_space_of_a_freed_block() {
    let mut list = HoleList::new(0x1000, 1024);
    assert_eq!(list.bottom(), 0x1000);
    assert_eq!(list.top(), 0x1400);
    assert_eq!(holes(&list), vec![(0x1000, 1024)]);
    let a1 = list.allocate_first_fit(&layout(100, 8)).unwrap();
    assert_eq!(a1, (0x1008, 112));
    let a2 = list.allocate_first_fit(&layout(200, 16)).unwrap();
    assert_eq!(a2, (0x1080, 224));
    assert_eq!(holes(&list), vec![(0x1150, 688)]);
    assert_eq!(list.deallocate(a1.0, &layout(100, 8)), 112);
    assert_eq!(holes(&list), vec![(0x1000, 112), (0x1150, 688)]);
    let a3 = list.allocate_first_fit(&layout(80, 8)).unwrap();
    // the new block lies where the freed one lay
    assert_eq!(a3.0, a1.0);
    assert_eq!(a3.1, 96);
    // two used blocks, and what is left of the freed block before the
    // hole at the end
    assert_eq!(holes(&list), vec![(0x1060, 16), (0x1150, 688)]);
    assert_eq!(list.allocated(), 96 + 224);
    assert_eq!(list.maximum(), 112 + 224);
    assert_eq!(list.total(), 1024);
    assert_eq!(1024 - 96 - 224, 16 + 688);
}

#[test]
fn freeing_in_any_order_restores_one_hole() {
    let orders: [[usize; 4]; 4] = [[0, 1, 2, 3], [3, 2, 1, 0], [1, 3, 0, 2], [2, 0, 3, 1]];
    for order in orders {
        let mut list = HoleList::new(0x2000, 4096);
        let requests = [(24usize, 8usize), (100, 64), (1, 1), (512, 256)];
        let mut blocks = Vec::new();
        for (size, align) in requests {
            let (ptr, _) = list.allocate_first_fit(&layout(size, align)).unwrap();
            assert_eq!(ptr % align, 0);
            blocks.push((ptr, layout(size, align)));
        }
        assert!(list.allocated() > 0);
        let peak = list.allocated();
        for i in order {
            let (ptr, l) = blocks[i];
            list.deallocate(ptr, &l);
            // no two holes touch
            let hs = holes(&list);
            for w in hs.windows(2) {
                assert!(w[0].0 + w[0].1 < w[1].0);
            }
        }
        assert_eq!(list.allocated(), 0);
        assert_eq!(list.maximum(), peak);
        assert_eq!(holes(&list), vec![(0x2000, 4096)]);
    }
}

#[test]
fn deallocate_merges_with_the_holes_on_both_sides() {
    let mut list = HoleList::new(0x1000, 256);
    let a = list.allocate_first_fit(&layout(16, 8)).unwrap();
    let b = list.allocate_first_fit(&layout(16, 8)).unwrap();
    let c = list.allocate_first_fit(&layout(16, 8)).unwrap();
    assert_eq!((a, b, c), ((0x1008, 32), (0x1028, 32), (0x1048, 32)));
    assert_eq!(list.first_hole(), Some((0x1060, 160)));
    assert_eq!(list.deallocate(a.0, &layout(16, 8)), 32);
    assert_eq!(list.deallocate(c.0, &layout(16, 8)), 32);
    assert_eq!(holes(&list), vec![(0x1000, 32), (0x1040, 192)]);
    assert_eq!(list.deallocate_unknown_align(b.0), 32);
    assert_eq!(holes(&list), vec![(0x1000, 256)]);
    assert_eq!(list.first_hole(), Some((0x1000, 256)));
}

#[test]
fn large_alignment_puts_a_back_pointer_before_the_payload() {
    let mut list = HoleList::new(0x1010, 1024);
    assert_eq!(list.bottom(), 0x1010);
    let (ptr, size) = list.allocate_first_fit(&layout(40, 256)).unwrap();
    assert_eq!(ptr, 0x1100);
    // header and padding up to the payload, and the payload, in granules
    assert_eq!(size, 0xf0 + 48);
    assert_eq!(holes(&list), vec![(0x1010 + size, 1024 - size)]);
    assert_eq!(list.deallocate_unknown_align(ptr), size);
    assert_eq!(holes(&list), vec![(0x1010, 1024)]);
    let (ptr, size) = list.allocate_first_fit(&layout(40, 16)).unwrap();
    assert_eq!((ptr, size), (0x1020, 64));
    assert_eq!(list.deallocate(ptr, &layout(40, 16)), 64);
    assert_eq!(holes(&list), vec![(0x1010, 1024)]);
}

#[test]
fn allocation_of_nothing_takes_a_granule() {
    let mut list = HoleList::new(0x1000, 64);
    let zero = list.allocate_first_fit(&layout(0, 1)).unwrap();
    let mut other = HoleList::new(0x1000, 64);
    let least = other.allocate_first_fit(&layout(HoleList::min_size(), HOLE_ALIGN)).unwrap();
    assert_eq!(zero, least);
    assert_eq!(zero, (0x1008, 32));
    assert_eq!(holes(&list), holes(&other));
    let aligned = HoleList::align_layout(&layout(0, 1)).unwrap();
    assert_eq!((aligned.size(), aligned.align()), (16, 8));
    let aligned = HoleList::align_layout(&layout(17, 32)).unwrap();
    assert_eq!((aligned.size(), aligned.align()), (24, 32));
    assert_eq!(HoleList::min_size(), 16);
    assert_eq!(GRANULARITY, 16);
}

#[test]
fn allocation_that_does_not_fit_changes_nothing() {
    let mut list = HoleList::new(0x1000, 128);
    let a = list.allocate_first_fit(&layout(64, 8)).unwrap();
    assert_eq!(a, (0x1008, 80));
    let before = holes(&list);
    assert_eq!(before, vec![(0x1050, 48)]);
    // 48 bytes are free; a payload of 41 bytes needs 56 with its header
    assert_eq!(list.allocate_first_fit(&layout(41, 8)), Err(()));
    assert_eq!(list.allocate_first_fit(&layout(4096, 8)), Err(()));
    assert_eq!(list.allocate_first_fit(&layout(8, 64)), Err(()));
    assert_eq!(holes(&list), before);
    assert_eq!(list.allocated(), 80);
    // what fits is served, and takes the hole whole
    assert_eq!(list.allocate_first_fit(&layout(40, 8)), Ok((0x1058, 48)));
    assert_eq!(holes(&list), vec![]);
    assert_eq!(list.first_hole(), None);
    assert_eq!(list.allocate_first_fit(&layout(1, 1)), Err(()));
    assert_eq!(list.allocated(), list.total());
}

#[test]
fn empty_list_serves_nothing() {
    let mut list = HoleList::empty();
    assert_eq!(list.total(), 0);
    assert_eq!(list.bottom(), 0);
    assert_eq!(list.top(), 0);
    assert_eq!(list.first_hole(), None);
    assert_eq!(list.allocate_first_fit(&layout(1, 1)), Err(()));
    assert!(list.debug().is_empty());
    assert!(list.cursor().is_none());
}

#[test]
fn new_list_keeps_the_bytes_that_make_no_granule() {
    let list = HoleList::new(0x1001, 100);
    assert_eq!(list.bottom(), 0x1010);
    // 85 bytes from the boundary on: five granules and five bytes
    assert_eq!(list.top(), 0x1010 + 80);
    assert_eq!(list.pending_extend(), 5);
    assert_eq!(holes(&list), vec![(0x1010, 80)]);
    assert!(list.cursor().is_some());
}

#[test]
fn extend_keeps_small_increments_until_they_make_a_granule() {
    let mut list = HoleList::new(0x1000, 64);
    let (ptr, size) = list.allocate_first_fit(&layout(40, 8)).unwrap();
    assert_eq!((ptr, size), (0x1008, 48));
    assert_eq!(holes(&list), vec![(0x1030, 16)]);
    list.extend(7);
    assert_eq!(list.pending_extend(), 7);
    assert_eq!(list.top(), 0x1040);
    assert_eq!(holes(&list), vec![(0x1030, 16)]);
    list.extend(8);
    assert_eq!(list.pending_extend(), 15);
    assert_eq!(holes(&list), vec![(0x1030, 16)]);
    // one byte more makes a granule, which joins the hole at the top
    list.extend(1);
    assert_eq!(list.pending_extend(), 0);
    assert_eq!(list.top(), 0x1050);
    assert_eq!(holes(&list), vec![(0x1030, 32)]);
    // what goes beyond a granule counts in whole words
    list.extend(40);
    assert_eq!(list.pending_extend(), 0);
    assert_eq!(list.top(), 0x1078);
    assert_eq!(holes(&list), vec![(0x1030, 72)]);
    assert_eq!(list.total(), 120);
    list.extend(21);
    assert_eq!(list.pending_extend(), 5);
    assert_eq!(list.top(), 0x1088);
    assert_eq!(holes(&list), vec![(0x1030, 88)]);
}

#[test]
fn extend_grows_the_arena_in_whole_words() {
    let mut list = HoleList::new(4096, 64);
    list.extend(40);
    assert_eq!(list.top(), 4200);
    assert_eq!(list.pending_extend(), 0);
    assert_eq!(holes(&list), vec![(4096, 104)]);
    // less than a granule stays pending, however many words it holds
    list.extend(15);
    assert_eq!(list.top(), 4200);
    assert_eq!(list.pending_extend(), 15);
    list.extend(2);
    assert_eq!(list.top(), 4216);
    assert_eq!(list.pending_extend(), 1);
    assert_eq!(holes(&list), vec![(4096, 120)]);
}

#[test]
fn a_block_takes_what_is_left_of_a_hole_where_that_is_less_than_a_granule() {
    let mut list = HoleList::new(0x1000, 64);
    list.extend(24);
    assert_eq!(holes(&list), vec![(0x1000, 88)]);
    // the request needs 80 bytes; the 8 bytes behind them make no hole
    assert_eq!(list.allocate_first_fit(&layout(72, 8)), Ok((0x1008, 88)));
    assert_eq!(holes(&list), vec![]);
    assert_eq!(list.allocated(), 88);
    // the arena grows behind the block: the new hole starts on a word
    // boundary that is no granule boundary
    list.extend(48);
    assert_eq!(holes(&list), vec![(0x1058, 48)]);
    // a payload aligned to a granule leaves room for the back-pointer
    let (ptr, size) = list.allocate_first_fit(&layout(16, 16)).unwrap();
    assert_eq!((ptr, size), (0x1070, 48));
    assert_eq!(holes(&list), vec![]);
    assert_eq!(list.deallocate(ptr, &layout(16, 16)), 48);
    assert_eq!(holes(&list), vec![(0x1058, 48)]);
    // the same block, freed by its payload alone
    let (ptr, size) = list.allocate_first_fit(&layout(8, 16)).unwrap();
    assert_eq!((ptr, size), (0x1070, 48));
    assert_eq!(list.deallocate_unknown_align(ptr), 48);
    // a payload at 0x1080 with a granule behind it needs 64 bytes
    assert_eq!(list.allocate_first_fit(&layout(8, 32)), Err(()));
    // a payload aligned to a word follows the header
    let (ptr, size) = list.allocate_first_fit(&layout(8, 8)).unwrap();
    assert_eq!((ptr, size), (0x1060, 32));
    assert_eq!(holes(&list), vec![(0x1078, 16)]);
    assert_eq!(list.deallocate_unknown_align(ptr), 32);
    assert_eq!(list.deallocate(0x1008, &layout(72, 8)), 88);
    assert_eq!(holes(&list), vec![(0x1000, 136)]);
    assert_eq!(list.allocated(), 0);
}

#[test]
fn extend_behind_a_used_block_makes_one_hole() {
    let mut list = HoleList::new(0x1000, 32);
    assert_eq!(list.allocate_first_fit(&layout(24, 8)), Ok((0x1008, 32)));
    assert_eq!(holes(&list), vec![]);
    list.extend(5);
    list.extend(43);
    assert_eq!(holes(&list), vec![(0x1020, 48)]);
    assert_eq!(list.pending_extend(), 0);
    let h = HoleInfo { addr: 0x1020, size: 48 };
    assert_eq!(list.debug(), vec![h]);
}

#[test]
fn layout_checks_size_and_alignment() {
    assert!(Layout::from_size_align(0, 1).is_ok());
    assert!(Layout::from_size_align(10, 8).is_ok());
    assert_eq!(Layout::from_size_align(10, 0).err(), Some(LayoutError));
    assert_eq!(Layout::from_size_align(10, 3).err(), Some(LayoutError));
    assert_eq!(Layout::from_size_align(10, 24).err(), Some(LayoutError));
    assert!(Layout::from_size_align(isize::MAX as usize, 1).is_ok());
    assert!(Layout::from_size_align(isize::MAX as usize + 1, 1).is_err());
    assert!(Layout::from_size_align(isize::MAX as usize - 7, 8).is_ok());
    assert!(Layout::from_size_align(isize::MAX as usize - 6, 8).is_err());
    assert!(Layout::from_size_align(usize::MAX, 8).is_err());
    let l = layout(24, 64);
    assert_eq!((l.size(), l.align()), (24, 64));
    // a layout that cannot be aligned is refused by the list
    let mut list = HoleList::new(0x1000, 64);
    let huge = layout(isize::MAX as usize - 3, 1);
    assert!(HoleList::align_layout(&huge).is_err());
    assert_eq!(list.allocate_first_fit(&huge), Err(()));
}

#[test]
fn alignment_arithmetic() {
    assert!(is_pow2(1));
    assert!(is_pow2(4096));
    assert!(!is_pow2(0));
    assert!(!is_pow2(12));
    assert!(is_pow2(1usize << 63));
    assert_eq!(align_down_size(37, 16), 32);
    assert_eq!(align_down_size(32, 16), 32);
    assert_eq!(align_down_size(15, 16), 0);
    assert_eq!(checked_align_up(37, 16), Some(48));
    assert_eq!(checked_align_up(48, 16), Some(48));
    assert_eq!(checked_align_up(0, 16), Some(0));
    assert_eq!(checked_align_up(usize::MAX, 16), None);
    assert_eq!(checked_align_up(usize::MAX - 15, 16), Some(usize::MAX - 15));
}

#[test]
fn arena_reads_what_was_written() {
    let mut arena = Arena::new(0x100, 32);
    assert_eq!(arena.start(), 0x100);
    assert_eq!(arena.len(), 32);
    assert!(arena.holds(0x100));
    assert!(arena.holds(0x118));
    assert!(!arena.holds(0x120));
    assert!(!arena.holds(0x104));
    assert!(!arena.holds(0xf8));
    assert_eq!(arena.read(0x108), 0);
    arena.write(0x108, 77);
    arena.write(0x118, 99);
    assert_eq!(arena.read(0x108), 77);
    assert_eq!(arena.read(0x100), 0);
    arena.grow(16);
    assert_eq!(arena.len(), 48);
    assert_eq!(arena.read(0x118), 99);
    assert_eq!(arena.read(0x128), 0);
}

#[test]
fn used_block_header_is_found_from_the_payload() {
    let mut arena = Arena::new(0x1000, 256);
    // a block at 0x1000 with its payload right behind the header
    arena.write(0x1000, 32 + SIZE_USED);
    assert_eq!(used_block_hdr_for_allocation(&arena, 0x1008, 8), 0x1000);
    assert_eq!(used_block_hdr_for_allocation_unknown_align(&arena, 0x1008), 0x1000);
    // a block at 0x1020 with its payload at 0x1040 and a back-pointer
    arena.write(0x1020, 64 + SIZE_USED);
    arena.write(0x1038, 0x1020);
    assert_eq!(used_block_hdr_for_allocation(&arena, 0x1040, 32), 0x1020);
    assert_eq!(used_block_hdr_for_allocation_unknown_align(&arena, 0x1040), 0x1020);
    assert_eq!(USED_HDR_SIZE, 8);
}
