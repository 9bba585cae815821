use blueos_core::buffer::{Buffer, HEADER_SIZE};
use blueos_core::entry::{Entry, State, MAX_ENTRY_SIZE};

fn offsets<const N: usize>(buffer: &Buffer<N>) -> Vec<usize> {
    let mut it = buffer.entries();
    let mut v = Vec::new();
    while let Some(o) = it.next() {
        v.push(o.value());
    }
    v
}

/// Walks from header to header and returns the offset where the walk ends.
fn walk<const N: usize>(buffer: &Buffer<N>) -> usize {
    let mut it = buffer.entries();
    let mut end = 0;
    while let Some(o) = it.next() {
        end = o.value() + HEADER_SIZE + buffer.get(o).size();
    }
    end
}

#[test]
fn entry_holds_state_and_size_in_four_bytes() {
    let free = Entry::free(24);
    assert_eq!(free.state(), State::Free);
    assert_eq!(free.size(), 24);
    assert_eq!(free.as_raw(), [24, 0, 0, 0]);
    let used = Entry::used(0x0102_0304);
    assert_eq!(used.state(), State::Used);
    assert_eq!(used.size(), 0x0102_0304);
    assert_eq!(used.as_raw(), [0x05, 0x03, 0x02, 0x01]);
    let back = Entry::from_raw(0x05, 0x03, 0x02, 0x01);
    assert_eq!(back, used);
    assert_eq!(Entry::from_raw(0, 0, 0, 0), Entry::free(0));
    let most = Entry::used(MAX_ENTRY_SIZE);
    assert_eq!(most.size(), 0xffff_fffc);
    assert_eq!(most.as_raw(), [0xfd, 0xff, 0xff, 0xff]);
    assert_eq!(Entry::from_raw(0xfc, 0xff, 0xff, 0xff), Entry::free(MAX_ENTRY_SIZE));
    assert_eq!(HEADER_SIZE, 4);
}

#[test]
fn new_buffer_becomes_one_free_block() {
    let mut buffer = Buffer::<32>::new();
    buffer.ensure_initialization();
    assert_eq!(offsets(&buffer), vec![0]);
    let mut it = buffer.entries();
    let first = it.next().unwrap();
    assert_eq!(it.next(), None);
    assert_eq!(buffer.get(first), Entry::free(28));
    assert_eq!(buffer.memory_of(first).len(), 28);
    assert_eq!(buffer.following_free_entry(first), None);
    assert_eq!(walk(&buffer), 32);
    // a buffer that was initialized stays as it is
    buffer.mark_as_used(first, 8);
    buffer.ensure_initialization();
    assert_eq!(buffer.get(first), Entry::used(8));
}

#[test]
fn mark_as_used_splits_a_block_that_is_large_enough() {
    let mut buffer = Buffer::<64>::new();
    buffer.ensure_initialization();
    let first = buffer.entries().next().unwrap();
    assert_eq!(buffer.following_free_entry(first), None);
    buffer.mark_as_used(first, 16);
    assert_eq!(buffer.get(first), Entry::used(16));
    assert_eq!(offsets(&buffer), vec![0, 20]);
    assert_eq!(buffer.following_free_entry(first), Some(Entry::free(40)));
    let mut it = buffer.entries();
    it.next();
    let second = it.next().unwrap();
    assert_eq!(second.value(), 20);
    assert_eq!(buffer.get(second), Entry::free(40));
    // 40 bytes less 36: a header that is left has no payload, so the block
    // keeps its bytes
    buffer.mark_as_used(second, 36);
    assert_eq!(buffer.get(second), Entry::used(40));
    assert_eq!(offsets(&buffer), vec![0, 20]);
    assert_eq!(buffer.following_free_entry(first), None);
    assert_eq!(buffer.following_free_entry(second), None);
    assert_eq!(buffer.memory_of(first).len(), 16);
    assert_eq!(buffer.memory_of(second).len(), 40);
    assert_eq!(walk(&buffer), 64);
}

#[test]
fn mark_as_used_with_room_for_a_word_splits() {
    let mut buffer = Buffer::<64>::new();
    buffer.ensure_initialization();
    let first = buffer.entries().next().unwrap();
    // 60 bytes less 52: a header and a word of payload are left
    buffer.mark_as_used(first, 52);
    assert_eq!(buffer.get(first), Entry::used(52));
    assert_eq!(offsets(&buffer), vec![0, 56]);
    assert_eq!(buffer.following_free_entry(first), Some(Entry::free(4)));
    assert_eq!(walk(&buffer), 64);
    let mut other = Buffer::<64>::new();
    other.ensure_initialization();
    let first = other.entries().next().unwrap();
    other.mark_as_used(first, 0);
    assert_eq!(other.get(first), Entry::used(0));
    assert_eq!(offsets(&other), vec![0, 4]);
    assert_eq!(walk(&other), 64);
}

#[test]
fn payload_can_be_written_and_read() {
    let mut buffer = Buffer::<48>::new();
    buffer.ensure_initialization();
    let first = buffer.entries().next().unwrap();
    buffer.mark_as_used(first, 12);
    {
        let memory = buffer.memory_of_mut(first);
        assert_eq!(memory.len(), 12);
        for (i, byte) in memory.iter_mut().enumerate() {
            *byte = 0xa0 + i as u8;
        }
    }
    let memory = buffer.memory_of(first);
    assert_eq!(memory[0], 0xa0);
    assert_eq!(memory[11], 0xab);
    // the headers are as they were
    assert_eq!(buffer.get(first), Entry::used(12));
    assert_eq!(offsets(&buffer), vec![0, 16]);
    assert_eq!(buffer.following_free_entry(first), Some(Entry::free(28)));
    assert_eq!(walk(&buffer), 48);
}

#[test]
fn smallest_buffer_has_no_block_to_yield() {
    let mut buffer = Buffer::<4>::new();
    buffer.ensure_initialization();
    assert_eq!(offsets(&buffer), Vec::<usize>::new());
    assert_eq!(walk(&buffer), 0);
}
