use mistralrs_core::block_engine::{AllocError, BlockEngine};

#[test]
fn pool_of_four_blocks_is_exhausted_by_two_sequences() {
    let mut e = BlockEngine::new(4, 4);
    assert_eq!(e.allocate_for(1, 5), Ok(()));
    assert_eq!(e.allocate_for(2, 5), Ok(()));
    assert_eq!(e.block_table(1).unwrap().len(), 2);
    assert_eq!(e.block_table(2).unwrap().len(), 2);
    assert_eq!(e.num_free_blocks(), 0);
    assert_eq!(e.allocate_for(3, 1), Err(AllocError::OutOfMemory));
    assert_eq!(e.block_table(3), None);
    assert_eq!(e.num_free_blocks(), 0);
}

#[test]
fn allocation_takes_blocks_in_id_order() {
    let mut e = BlockEngine::new(4, 4);
    assert_eq!(e.allocate_for(9, 9), Ok(()));
    assert_eq!(e.block_table(9), Some(vec![0, 1, 2]));
    assert_eq!(e.num_tokens(9), Some(9));
    assert_eq!(e.num_free_blocks(), 1);
}

#[test]
fn growing_a_table_covers_only_the_missing_blocks() {
    let mut e = BlockEngine::new(8, 4);
    assert_eq!(e.allocate_for(1, 3), Ok(()));
    assert_eq!(e.block_table(1).unwrap().len(), 1);
    assert_eq!(e.allocate_for(1, 1), Ok(()));
    assert_eq!(e.block_table(1).unwrap().len(), 1);
    assert_eq!(e.allocate_for(1, 1), Ok(()));
    assert_eq!(e.block_table(1).unwrap().len(), 2);
    assert_eq!(e.num_tokens(1), Some(5));
}

#[test]
fn append_into_a_full_block_takes_a_new_one() {
    let mut e = BlockEngine::new(4, 4);
    e.allocate_for(1, 4).unwrap();
    let slot = e.append_token(1).unwrap();
    let table = e.block_table(1).unwrap();
    assert_eq!(table.len(), 2);
    assert_eq!(slot, table[1] * 4);
    assert_eq!(e.num_tokens(1), Some(5));
    let slot = e.append_token(1).unwrap();
    assert_eq!(slot, table[1] * 4 + 1);
    assert_eq!(e.block_table(1).unwrap().len(), 2);
}

#[test]
fn append_to_an_unknown_sequence_fails() {
    let mut e = BlockEngine::new(4, 4);
    assert_eq!(e.append_token(5), Err(AllocError::UnknownSequence));
}

#[test]
fn forked_sequence_copies_the_shared_block_on_append() {
    let mut e = BlockEngine::new(8, 4);
    e.allocate_for(1, 6).unwrap();
    let a_before = e.block_table(1).unwrap();
    assert_eq!(e.fork(1, 2), Ok(()));
    assert_eq!(e.block_table(2).unwrap(), a_before);
    assert_eq!(e.ref_counts[a_before[0]], 2);
    assert_eq!(e.ref_counts[a_before[1]], 2);
    let slot = e.append_token(2).unwrap();
    let a_after = e.block_table(1).unwrap();
    let b_after = e.block_table(2).unwrap();
    assert_eq!(a_after, a_before);
    assert_eq!(b_after[0], a_after[0]);
    assert_ne!(b_after[1], a_after[1]);
    assert_eq!(slot, b_after[1] * 4 + 2);
    assert!(!a_after.contains(&(slot / 4)));
    assert_eq!(e.pending_copies, vec![(a_before[1], b_after[1])]);
    assert_eq!(e.ref_counts[a_before[1]], 1);
    assert_eq!(e.ref_counts[b_after[1]], 1);
}

#[test]
fn fork_errors() {
    let mut e = BlockEngine::new(8, 4);
    e.allocate_for(1, 2).unwrap();
    e.allocate_for(2, 2).unwrap();
    assert_eq!(e.fork(7, 3), Err(AllocError::UnknownSequence));
    assert_eq!(e.fork(1, 2), Err(AllocError::SequenceExists));
}

#[test]
fn copy_on_write_without_free_blocks_is_out_of_memory() {
    let mut e = BlockEngine::new(1, 4);
    e.allocate_for(1, 2).unwrap();
    e.fork(1, 2).unwrap();
    assert_eq!(e.append_token(2), Err(AllocError::OutOfMemory));
    assert_eq!(e.write_before_mutate(2, 0), Err(AllocError::OutOfMemory));
    assert_eq!(e.write_before_mutate(9, 0), Err(AllocError::UnknownSequence));
}

#[test]
fn exclusive_block_needs_no_copy() {
    let mut e = BlockEngine::new(4, 4);
    e.allocate_for(1, 2).unwrap();
    let b = e.block_table(1).unwrap()[0];
    assert_eq!(e.write_before_mutate(1, 0), Ok(b));
    assert!(e.pending_copies.is_empty());
}

#[test]
fn block_returns_to_pool_only_when_unreferenced() {
    let mut e = BlockEngine::new(4, 4);
    e.allocate_for(1, 8).unwrap();
    e.fork(1, 2).unwrap();
    assert_eq!(e.num_free_blocks(), 2);
    assert!(e.free(1));
    assert_eq!(e.num_free_blocks(), 2);
    assert!(e.block_table(2).is_some());
    assert!(e.free(2));
    assert_eq!(e.num_free_blocks(), 4);
    assert!(!e.free(2));
}

#[test]
fn shared_prefix_survives_free_of_one_owner() {
    let mut e = BlockEngine::new(6, 2);
    e.allocate_for(1, 4).unwrap();
    e.fork(1, 2).unwrap();
    e.allocate_for(2, 2).unwrap();
    let t1 = e.block_table(1).unwrap();
    let t2 = e.block_table(2).unwrap();
    assert!(e.free(2));
    assert!(!e.free_list.contains(&t1[0]));
    assert!(!e.free_list.contains(&t1[1]));
    assert!(e.free_list.contains(&t2[2]));
    assert!(e.free(1));
    assert!(e.free_list.contains(&t1[0]));
    assert!(e.free_list.contains(&t1[1]));
}

#[test]
fn swap_out_and_back_in() {
    let mut gpu = BlockEngine::new(4, 4);
    let mut cpu = BlockEngine::new(4, 4);
    gpu.allocate_for(1, 6).unwrap();
    let before = gpu.block_table(1).unwrap();
    let pairs = gpu.swap_out(&mut cpu, 1).unwrap();
    assert_eq!(gpu.block_table(1), None);
    assert_eq!(gpu.num_free_blocks(), 4);
    let host = cpu.block_table(1).unwrap();
    assert_eq!(pairs, vec![(before[0], host[0]), (before[1], host[1])]);
    assert_eq!(cpu.num_tokens(1), Some(6));
    let back = gpu.swap_in(&mut cpu, 1).unwrap();
    let now = gpu.block_table(1).unwrap();
    assert_eq!(back, vec![(host[0], now[0]), (host[1], now[1])]);
    assert_eq!(cpu.block_table(1), None);
    assert_eq!(gpu.num_tokens(1), Some(6));
}

#[test]
fn swap_errors() {
    let mut gpu = BlockEngine::new(4, 4);
    let mut cpu = BlockEngine::new(1, 4);
    assert_eq!(gpu.swap_out(&mut cpu, 1), Err(AllocError::UnknownSequence));
    gpu.allocate_for(1, 6).unwrap();
    assert_eq!(gpu.swap_out(&mut cpu, 1), Err(AllocError::OutOfMemory));
    assert_eq!(gpu.block_table(1).unwrap().len(), 2);
    cpu.allocate_for(1, 1).unwrap();
    assert_eq!(gpu.swap_out(&mut cpu, 1), Err(AllocError::SequenceExists));
}

#[test]
fn growing_into_a_shared_partial_block_copies_it_first() {
    let mut e = BlockEngine::new(4, 4);
    e.allocate_for(1, 2).unwrap();
    e.fork(1, 2).unwrap();
    let shared = e.block_table(1).unwrap()[0];
    assert_eq!(e.allocate_for(2, 5), Ok(()));
    let t2 = e.block_table(2).unwrap();
    assert_eq!(e.block_table(1).unwrap(), vec![shared]);
    assert_eq!(t2.len(), 2);
    assert_ne!(t2[0], shared);
    assert_eq!(e.pending_copies, vec![(shared, t2[0])]);
    assert_eq!(e.num_tokens(2), Some(7));
    assert_eq!(e.ref_counts[shared], 1);
}

#[test]
fn growing_with_a_needed_copy_counts_the_copy_block() {
    let mut e = BlockEngine::new(2, 4);
    e.allocate_for(1, 2).unwrap();
    e.fork(1, 2).unwrap();
    assert_eq!(e.allocate_for(2, 5), Err(AllocError::OutOfMemory));
    assert_eq!(e.num_free_blocks(), 1);
    assert!(e.pending_copies.is_empty());
    assert_eq!(e.allocate_for(2, 2), Ok(()));
    assert_eq!(e.num_free_blocks(), 0);
}
