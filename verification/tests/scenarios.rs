use systems_project::memory_manager::dump::BlockKind;
use systems_project::memory_manager::extent::CAPACITY;
use systems_project::memory_manager::free_block::FreeBlock;
use systems_project::memory_manager::{
    AllocationFailure, BlockNotFound, MemoryManager, UpdateError, WriteError,
};
use systems_project::nearest_power_of_two;

fn free_total(manager: &MemoryManager) -> usize {
    manager.free_blocks().iter().map(|block| block.size).sum()
}

fn allocated_total(manager: &MemoryManager) -> usize {
    manager
        .dump()
        .iter()
        .filter(|line| line.kind == BlockKind::Allocated)
        .map(|line| line.size)
        .sum()
}

fn has_buddies(manager: &MemoryManager) -> bool {
    let blocks = manager.free_blocks();
    blocks.iter().any(|a| {
        blocks
            .iter()
            .any(|b| a.size == b.size && (a.start ^ a.size) == b.start)
    })
}

#[test]
fn fresh_manager_is_one_free_block_of_zeros() {
    let manager = MemoryManager::new();
    assert_eq!(manager.total_capacity(), 65536);
    assert_eq!(manager.memory().len(), 65536);
    assert!(manager.memory().iter().all(|byte| *byte == 0));
    assert_eq!(manager.free_blocks(), &[FreeBlock::new(0, 65536)][..]);
    assert_eq!(manager.next_id(), 0);
    assert!(manager.dump().iter().all(|line| line.kind == BlockKind::Free));
}

#[test]
fn first_allocation_splits_the_arena() {
    let mut manager = MemoryManager::new();
    assert_eq!(manager.allocate(1024), Ok(0));
    let block = manager.read(0).unwrap();
    assert_eq!(block.start, 0);
    assert_eq!(block.size, 1024);
    assert_eq!(block.id, 0);
    assert_eq!(block.data_size, 1024);
    assert_eq!(
        manager.free_blocks(),
        &[
            FreeBlock::new(32768, 32768),
            FreeBlock::new(16384, 16384),
            FreeBlock::new(8192, 8192),
            FreeBlock::new(4096, 4096),
            FreeBlock::new(2048, 2048),
            FreeBlock::new(1024, 1024),
        ][..]
    );
    assert_eq!(free_total(&manager), 65536 - 1024);
    assert_eq!(free_total(&manager), 64512);
}

#[test]
fn freed_space_is_used_again() {
    let mut manager = MemoryManager::new();
    let a = manager.allocate(500).unwrap();
    let first = manager.read(a).unwrap();
    assert_eq!(first.size, 512);
    let b = manager.allocate(1000).unwrap();
    assert_eq!(manager.read(b).unwrap().size, 1024);
    manager.delete(a).unwrap();
    let c = manager.allocate(300).unwrap();
    let third = manager.read(c).unwrap();
    assert_eq!(third.start, first.start);
    assert_eq!(third.size, 512);
    assert_eq!(third.data_size, 300);
}

#[test]
fn two_buddies_become_one_block() {
    let mut manager = MemoryManager::new();
    let a = manager.allocate(32768).unwrap();
    let b = manager.allocate(32768).unwrap();
    let first = manager.read(a).unwrap();
    let second = manager.read(b).unwrap();
    assert_eq!(first.start ^ first.size, second.start);
    assert!(manager.free_blocks().is_empty());
    assert_eq!(manager.allocate(1), Err(AllocationFailure::NoSpace));
    manager.delete(a).unwrap();
    assert_eq!(manager.free_blocks(), &[FreeBlock::new(0, 32768)][..]);
    manager.delete(b).unwrap();
    manager.merge_free_blocks();
    assert_eq!(manager.free_blocks(), &[FreeBlock::new(0, 65536)][..]);
}

#[test]
fn small_buddies_merge_all_the_way_up() {
    let mut manager = MemoryManager::new();
    let a = manager.allocate(8).unwrap();
    manager.delete(a).unwrap();
    assert_eq!(manager.free_blocks(), &[FreeBlock::new(0, 65536)][..]);
}

#[test]
fn update_beyond_capacity_moves_the_content() {
    let mut manager = MemoryManager::new();
    let id = manager.allocate(4).unwrap();
    manager.set(id, b"1234").unwrap();
    let new_id = manager.update(id, b"12345678").unwrap();
    assert_ne!(new_id, id);
    assert_eq!(new_id, 1);
    assert_eq!(manager.read(id), Err(BlockNotFound));
    assert_eq!(manager.update(id, b"x"), Err(UpdateError::BlockNotFound));
    assert_eq!(manager.delete(id), Err(BlockNotFound));
    let moved = manager.read(new_id).unwrap();
    assert_eq!(moved.size, 8);
    assert_eq!(moved.data_size, 8);
    assert_eq!(moved.data, b"12345678".to_vec());
}

#[test]
fn update_within_capacity_keeps_the_block_and_clears_the_rest() {
    let mut manager = MemoryManager::new();
    let id = manager.allocate(10).unwrap();
    manager.set(id, b"HELLOWORLD").unwrap();
    assert_eq!(manager.update(id, b"BYE"), Ok(id));
    let block = manager.read(id).unwrap();
    assert_eq!(block.size, 16);
    assert_eq!(block.data_size, 3);
    assert_eq!(block.data, b"BYE".to_vec());
    assert_eq!(
        manager.memory()[block.start..block.start + 16],
        [b'B', b'Y', b'E', 0, 0, 0, 0, 0, 0, 0, 0, 0, 0, 0, 0, 0][..]
    );
}

#[test]
fn update_that_finds_no_room_changes_nothing() {
    let mut manager = MemoryManager::new();
    let a = manager.allocate(32768).unwrap();
    let b = manager.allocate(32768).unwrap();
    manager.set(a, b"kept").unwrap();
    let before = manager.dump();
    assert_eq!(
        manager.update(a, &vec![7u8; 40000]),
        Err(UpdateError::Allocation(AllocationFailure::NoSpace))
    );
    assert_eq!(
        manager.update(b, &vec![7u8; 70000]),
        Err(UpdateError::Allocation(AllocationFailure::TooLarge))
    );
    assert_eq!(manager.dump(), before);
    assert_eq!(manager.read(a).unwrap().data, b"kept".to_vec());
}

#[test]
fn sizes_outside_the_arena_are_turned_down() {
    let mut manager = MemoryManager::new();
    assert_eq!(
        manager.allocate(CAPACITY + 1),
        Err(AllocationFailure::TooLarge)
    );
    assert_eq!(manager.allocate(0), Err(AllocationFailure::InvalidSize));
    assert_eq!(manager.insert(0), Err(AllocationFailure::InvalidSize));
    assert_eq!(manager.insert(usize::MAX), Err(AllocationFailure::TooLarge));
    assert_eq!(manager.free_blocks(), &[FreeBlock::new(0, 65536)][..]);
    assert_eq!(manager.next_id(), 0);
    assert_eq!(manager.allocate(CAPACITY), Ok(0));
    assert_eq!(manager.allocate(1), Err(AllocationFailure::NoSpace));
}

#[test]
fn a_request_of_one_byte_gets_one_byte() {
    let mut manager = MemoryManager::new();
    let id = manager.allocate(1).unwrap();
    let block = manager.read(id).unwrap();
    assert_eq!(block.size, 1);
    assert_eq!(free_total(&manager), 65535);
    assert_eq!(manager.free_blocks().len(), 16);
}

#[test]
fn rounding_gives_the_next_power_of_two() {
    assert_eq!(nearest_power_of_two(1), 1);
    assert_eq!(nearest_power_of_two(2), 2);
    assert_eq!(nearest_power_of_two(3), 4);
    assert_eq!(nearest_power_of_two(500), 512);
    assert_eq!(nearest_power_of_two(1000), 1024);
    assert_eq!(nearest_power_of_two(1024), 1024);
    assert_eq!(nearest_power_of_two(1025), 2048);
    assert_eq!(nearest_power_of_two(65536), 65536);
    assert_eq!(nearest_power_of_two((1 << 33) + 1), 1 << 34);
    for n in 1..=70000usize {
        let rounded = nearest_power_of_two(n);
        assert!(rounded.is_power_of_two());
        assert!(rounded >= n);
        assert!(rounded < 2 * n);
        assert_eq!(rounded, n.next_power_of_two());
    }
}

#[test]
fn no_byte_is_lost_or_counted_twice() {
    let mut manager = MemoryManager::new();
    let mut ids = Vec::new();
    for size in [500usize, 1000, 200, 1, 4096, 33, 8000, 17] {
        ids.push(manager.allocate(size).unwrap());
        assert_eq!(free_total(&manager) + allocated_total(&manager), CAPACITY);
    }
    for id in [ids[1], ids[4], ids[0], ids[7]] {
        manager.delete(id).unwrap();
        assert_eq!(free_total(&manager) + allocated_total(&manager), CAPACITY);
        assert!(!has_buddies(&manager));
    }
    manager.update(ids[2], &vec![9u8; 3000]).unwrap();
    assert_eq!(free_total(&manager) + allocated_total(&manager), CAPACITY);
    manager.merge_free_blocks();
    assert_eq!(free_total(&manager) + allocated_total(&manager), CAPACITY);
    assert!(!has_buddies(&manager));
}

#[test]
fn blocks_never_overlap() {
    let mut manager = MemoryManager::new();
    let mut ids = Vec::new();
    for size in [100usize, 3000, 64, 64, 7, 900, 16000] {
        ids.push(manager.allocate(size).unwrap());
    }
    manager.delete(ids[2]).unwrap();
    manager.delete(ids[5]).unwrap();
    let lines = manager.dump();
    let mut owner = vec![0u8; CAPACITY];
    for line in &lines {
        assert_eq!(line.end, line.start + line.size - 1);
        assert!(line.size.is_power_of_two());
        assert_eq!(line.start % line.size, 0);
        for address in line.start..=line.end {
            owner[address] += 1;
        }
    }
    assert!(owner.iter().all(|count| *count == 1));
}

#[test]
fn coalescing_leaves_no_buddies_and_sorts_by_address() {
    let mut manager = MemoryManager::new();
    let ids: Vec<usize> = (0..16).map(|_| manager.allocate(4096).unwrap()).collect();
    for id in [ids[3], ids[9], ids[2], ids[12], ids[13], ids[0]] {
        manager.delete(id).unwrap();
    }
    manager.merge_free_blocks();
    assert!(!has_buddies(&manager));
    let starts: Vec<usize> = manager.free_blocks().iter().map(|b| b.start).collect();
    let mut sorted = starts.clone();
    sorted.sort();
    assert_eq!(starts, sorted);
    let first = manager.free_blocks().to_vec();
    manager.merge_free_blocks();
    assert_eq!(manager.free_blocks(), &first[..]);
}

#[test]
fn what_is_written_is_what_is_read() {
    let mut manager = MemoryManager::new();
    let id = manager.allocate(100).unwrap();
    for length in [0usize, 1, 50, 100, 128] {
        let bytes: Vec<u8> = (0..length).map(|i| (i * 7 + 3) as u8).collect();
        assert_eq!(manager.set(id, &bytes), Ok(()));
        let block = manager.read(id).unwrap();
        assert_eq!(block.data, bytes);
        assert_eq!(block.data_size, length);
        assert_eq!(block.size, 128);
        assert_eq!(block.get_data(), &bytes[..]);
    }
}

#[test]
fn writing_to_one_block_leaves_the_others() {
    let mut manager = MemoryManager::new();
    let a = manager.allocate(16).unwrap();
    let b = manager.allocate(16).unwrap();
    manager.set(a, b"first block here").unwrap();
    manager.set(b, b"second block too").unwrap();
    manager.set(a, b"changed").unwrap();
    assert_eq!(manager.read(b).unwrap().data, b"second block too".to_vec());
    manager.update(a, b"again").unwrap();
    assert_eq!(manager.read(b).unwrap().data, b"second block too".to_vec());
}

#[test]
fn too_many_bytes_are_not_written() {
    let mut manager = MemoryManager::new();
    let id = manager.allocate(5).unwrap();
    manager.set(id, b"12345678").unwrap();
    let before = manager.memory().to_vec();
    assert_eq!(manager.set(id, b"123456789"), Err(WriteError::DataTooLarge));
    assert_eq!(manager.set(id + 1, b"1"), Err(WriteError::BlockNotFound));
    assert_eq!(manager.memory(), &before[..]);
    assert_eq!(manager.read(id).unwrap().data_size, 8);
}

#[test]
fn identifiers_are_never_used_again() {
    let mut manager = MemoryManager::new();
    assert_eq!(manager.allocate(10), Ok(0));
    assert_eq!(manager.allocate(10), Ok(1));
    manager.delete(0).unwrap();
    manager.delete(1).unwrap();
    assert_eq!(manager.allocate(10), Ok(2));
    assert_eq!(manager.allocate(0), Err(AllocationFailure::InvalidSize));
    assert_eq!(manager.allocate(10), Ok(3));
    assert_eq!(manager.next_id(), 4);
    assert_eq!(manager.delete(0), Err(BlockNotFound));
}

#[test]
fn the_first_block_of_the_table_that_fits_is_taken() {
    let mut manager = MemoryManager::new();
    manager.allocate(16384).unwrap();
    // The table holds the upper half of the arena before the quarter.
    assert_eq!(
        manager.free_blocks(),
        &[FreeBlock::new(32768, 32768), FreeBlock::new(16384, 16384)][..]
    );
    let id = manager.allocate(16384).unwrap();
    assert_eq!(manager.read(id).unwrap().start, 32768);
    assert_eq!(
        manager.free_blocks(),
        &[FreeBlock::new(16384, 16384), FreeBlock::new(49152, 16384)][..]
    );
}

#[test]
fn dump_lists_allocated_by_address_then_free_by_size() {
    let mut manager = MemoryManager::new();
    let a = manager.allocate(16384).unwrap();
    let b = manager.allocate(8192).unwrap();
    let c = manager.allocate(100).unwrap();
    manager.set(c, b"abc").unwrap();
    let lines = manager.dump();
    let shape: Vec<(usize, usize, BlockKind, usize, Option<usize>, Option<usize>)> = lines
        .iter()
        .map(|l| (l.start, l.end, l.kind, l.size, l.id, l.used_length))
        .collect();
    assert_eq!(
        shape,
        vec![
            (0, 16383, BlockKind::Allocated, 16384, Some(a), Some(16384)),
            (16384, 16511, BlockKind::Allocated, 128, Some(c), Some(3)),
            (32768, 40959, BlockKind::Allocated, 8192, Some(b), Some(8192)),
            (16512, 16639, BlockKind::Free, 128, None, None),
            (16640, 16895, BlockKind::Free, 256, None, None),
            (16896, 17407, BlockKind::Free, 512, None, None),
            (17408, 18431, BlockKind::Free, 1024, None, None),
            (18432, 20479, BlockKind::Free, 2048, None, None),
            (20480, 24575, BlockKind::Free, 4096, None, None),
            (24576, 32767, BlockKind::Free, 8192, None, None),
            (40960, 49151, BlockKind::Free, 8192, None, None),
            (49152, 65535, BlockKind::Free, 16384, None, None),
        ]
    );
    assert_eq!(lines[1].content, Some(b"abc".to_vec()));
    assert_eq!(lines[3].content, None);
}

#[test]
fn two_dumps_in_a_row_are_equal() {
    let mut manager = MemoryManager::new();
    for size in [70usize, 7000, 700, 7] {
        let id = manager.allocate(size).unwrap();
        manager.set(id, b"seven").unwrap();
    }
    manager.delete(1).unwrap();
    let first = manager.dump();
    let second = manager.dump();
    assert_eq!(first, second);
    assert_eq!(manager.dump_lines(), manager.dump_lines());
}
