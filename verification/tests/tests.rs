use systems_project::memory_manager::{MemoryManager, WriteError};
use systems_project::nearest_power_of_two;

#[test]
fn test_deallocate_block() {
    let mut manager = MemoryManager::new();
    let block_size = nearest_power_of_two(1024);
    let id = manager.allocate(block_size).unwrap();
    let data = vec![1u8; block_size];
    manager.set(id, &data).unwrap();

    // Deallocate the block
    assert_eq!(manager.delete(id), Ok(()));
    // Ensure the block is now free
    assert!(manager.allocate(block_size).is_ok());
}

#[test]
fn test_allocate_fragmented_memory() {
    let mut manager = MemoryManager::new();
    let id1 = manager.allocate(500).unwrap();
    manager.set(id1, &vec![1u8; 500]).unwrap();

    let id2 = manager.allocate(1000).unwrap();
    manager.set(id2, &vec![2u8; 1000]).unwrap();
    let second = manager.read(id2).unwrap();

    // Deallocate the first block
    manager.delete(id1).unwrap();

    // Allocate a smaller block that fits in the freed space
    let id3 = manager.allocate(300).unwrap();
    manager.set(id3, &vec![3u8; 300]).unwrap();

    assert_eq!(manager.memory()[0..300], vec![3u8; 300][..]);
    // A block of 1024 bytes begins at a multiple of 1024, so the second
    // block lies where the table placed it and no byte of it before 1500.
    assert_eq!(second.start % 1024, 0);
    assert_eq!(
        manager.memory()[second.start..second.start + 1000],
        vec![2u8; 1000][..]
    );
    assert_eq!(manager.memory()[500..1500], vec![0u8; 1000][..]);
}

#[test]
fn test_store_in_unallocated_block() {
    let mut manager = MemoryManager::new();
    let id = 42; // Arbitrary ID that hasn't been allocated
    let result = manager.set(id, b"invalid");
    assert_eq!(result, Err(WriteError::BlockNotFound));
}

#[test]
fn test_allocate_zero_size() {
    let mut manager = MemoryManager::new();
    let result = manager.allocate(0);
    assert!(result.is_err());
}

#[test]
fn test_allocate_exceeding_capacity() {
    let mut manager = MemoryManager::new();
    let total_capacity = manager.total_capacity();
    let result = manager.allocate(total_capacity + 1);
    assert!(result.is_err());
}

#[test]
fn test_insert_exact_fit() {
    let mut manager = MemoryManager::new();
    let block_size = nearest_power_of_two(1024);
    let result = manager.allocate(block_size);
    assert!(result.is_ok());
    let id = result.unwrap();
    // Create data that exactly fits the block
    let data = vec![1u8; block_size];
    assert_eq!(manager.set(id, &data), Ok(()));
}

#[test]
fn test_insert_too_large() {
    let mut manager = MemoryManager::new();
    // Attempt to allocate more memory than is available
    let result = manager.allocate(70000);
    assert!(result.is_err());
}

#[test]
fn test_insert_multiple_blocks() {
    let mut manager = MemoryManager::new();
    let first_id = manager.allocate(500).unwrap();
    manager.set(first_id, &vec![1u8; 500]).unwrap();

    let second_id = manager.allocate(1000).unwrap();
    manager.set(second_id, &vec![2u8; 1000]).unwrap();

    let third_id = manager.allocate(200).unwrap();
    manager.set(third_id, &vec![3u8; 200]).unwrap();

    // Check if each block contains the correct data and does not overlap
    let second = manager.read(second_id).unwrap();
    let third = manager.read(third_id).unwrap();
    assert_eq!(manager.memory()[0..500], vec![1u8; 500][..]);
    assert_eq!(
        manager.memory()[second.start..second.start + 1000],
        vec![2u8; 1000][..]
    );
    assert_eq!(
        manager.memory()[third.start..third.start + 200],
        vec![3u8; 200][..]
    );
    assert!(second.start >= 512 && third.start >= 512);
    assert!(
        second.start + second.size <= third.start || third.start + third.size <= second.start
    );
    // Blocks begin at multiples of their sizes: none of them at 1500 or
    // 1700, where nothing was written.
    assert_eq!(manager.memory()[1500..1700], vec![0u8; 200][..]);
}

#[test]
fn test_insert_and_read() {
    let mut mm = MemoryManager::new();
    let data = b"Hello";
    let id = mm.insert(data.len()).unwrap();
    mm.set(id, data).unwrap();

    let read_output = mm.read_formatted(id).unwrap();
    assert!(read_output.contains("Hello"));
}

#[test]
fn test_update_data_same_block() {
    let mut mm = MemoryManager::new();
    let id = mm.insert(10).unwrap();
    mm.set(id, b"HELLO").unwrap();
    mm.update(id, b"BYE").unwrap();

    let result = mm.read_formatted(id).unwrap();
    assert!(result.contains("BYE"));
}

#[test]
fn test_update_requires_reallocation() {
    let mut mm = MemoryManager::new();
    let id = mm.insert(4).unwrap();
    mm.set(id, b"1234").unwrap();
    mm.update(id, b"12345678").unwrap();

    assert!(mm.read(id).is_err());
}

#[test]
fn test_delete_and_merge() {
    let mut mm = MemoryManager::new();
    let id1 = mm.insert(8).unwrap();
    let id2 = mm.insert(8).unwrap();
    mm.delete(id1).unwrap();
    mm.delete(id2).unwrap();
    mm.merge_free_blocks();

    // Just make sure we can call dump without errors
    mm.dump();
}

#[test]
fn tests_test_insert_exact_fit() {
    let mut manager = MemoryManager::new();
    let block_size = 1024;
    let id = manager.insert(block_size).unwrap();
    let data = vec![1u8; block_size];
    assert_eq!(manager.set(id, &data), Ok(()));
}

#[test]
fn tests_test_insert_multiple_blocks() {
    let mut manager = MemoryManager::new();
    let id1 = manager.insert(500).unwrap();
    manager.set(id1, &vec![b'1'; 500]).unwrap();

    let id2 = manager.insert(1000).unwrap();
    manager.set(id2, &vec![b'2'; 1000]).unwrap();

    let id3 = manager.insert(200).unwrap();
    manager.set(id3, &vec![b'3'; 200]).unwrap();

    let out1 = manager.read_formatted(id1).unwrap();
    let out2 = manager.read_formatted(id2).unwrap();
    let out3 = manager.read_formatted(id3).unwrap();

    assert!(out1.contains("111"));
    assert!(out2.contains("222"));
    assert!(out3.contains("333"));
}

#[test]
fn test_insert_zero_size() {
    let mut mm = MemoryManager::new();
    let result = mm.insert(0);
    assert!(result.is_err(), "Inserting zero size should return an error");
}

#[test]
fn test_read_nonexistent_block() {
    let mm = MemoryManager::new();
    let result = mm.read(999);
    assert!(result.is_err(), "Reading a nonexistent block should return an error");
}

#[test]
fn test_update_nonexistent_block() {
    let mut mm = MemoryManager::new();
    let result = mm.update(42, b"new data");
    assert!(result.is_err(), "Updating a nonexistent block should return an error");
}

#[test]
fn test_delete_nonexistent_block() {
    let mut mm = MemoryManager::new();
    let result = mm.delete(42);
    assert!(result.is_err(), "Deleting a nonexistent block should return an error");
}

#[test]
fn test_memory_full() {
    let mut mm = MemoryManager::new();
    let mut ids = Vec::new();

    // Try to fill the entire memory
    let mut total = 0;
    while let Ok(id) = mm.insert(1024) {
        ids.push(id);
        total += 1024;
        if total > 65536 {
            break;
        }
    }

    // Ensure further allocations fail
    assert!(mm.insert(1024).is_err(), "Should fail once memory is full");
}
