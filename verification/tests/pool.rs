//! Allocator accounting and pool-backed blocks, plus the session registry.

use komachi_db::arena::Arena;
use komachi_db::block::Block;
use komachi_db::format::{ValueTag, ValueType};
use komachi_db::memory_pool::MemoryPool;
use komachi_db::session::SessionFactory;

fn create_test_pool() -> MemoryPool {
    MemoryPool::new(4096)
}

#[test]
fn test_big_fallback() {
    let mut pool = create_test_pool();

    pool.allocate(1024);
    let left = pool.remaining_space();
    pool.allocate(1029 * 8); // allocate a new block

    assert_eq!(left, pool.remaining_space());
}

#[test]
fn test_small_fallback() {
    let mut pool = create_test_pool();

    pool.allocate(1024 * 3 + 512);
    pool.allocate(640); // waste left space

    assert_eq!(pool.remaining_space, 4096 - 640);
}

#[test]
fn pool_stores_and_reads_back() {
    let mut pool = create_test_pool();
    let (b, o) = pool.allocate(16);
    pool.write_at(b, o, &[9; 16]);
    assert_eq!(pool.read_at(b, o, 16), vec![9; 16]);
    // a later allocation leaves the stored bytes alone
    let (b2, o2) = pool.allocate(8000);
    pool.write_at(b2, o2, &[7; 8000]);
    assert_eq!(pool.read_at(b, o, 16), vec![9; 16]);
    assert_eq!(pool.size(), 16 + 8000);
}

#[test]
fn block_round_trip_through_pool() {
    let mut pool = create_test_pool();
    let tag = ValueTag::new(11, ValueType::Value).unwrap();
    let block = Block::allocate_and_write(tag, &[1, 2, 3, 4], b"iiyo koiyo", &mut pool);
    assert_eq!(block.key_size(), 4);
    assert_eq!(block.key_slice(&pool), vec![1, 2, 3, 4]);
    let read_tag = block.value_tag(&pool);
    assert_eq!(read_tag.sequence_number, 11);
    assert!(read_tag.is_value());
}

#[test]
fn arena_accounts_alignment() {
    let mut arena = Arena::new(4096);
    arena.allocate(3);
    // three bytes round up to one alignment unit
    assert_eq!(arena.memory_usage(), 8);
    arena.allocate(8);
    assert_eq!(arena.memory_usage(), 16);
    // a large request gets a dedicated block, accounted in full
    arena.allocate(2048);
    assert_eq!(arena.memory_usage(), 16 + 2048);
}

#[test]
fn session_factory_tracks_sequences() {
    let mut factory = SessionFactory::new(10);
    let a = factory.get_session();
    let b = factory.get_session();
    assert_eq!(a, 10);
    assert_eq!(b, 11);
    assert!(factory.sequence_in_use(10));
    assert!(factory.sequence_in_use(11));
    assert!(!factory.sequence_in_use(12));
    factory.drop_sequence(10);
    assert!(!factory.sequence_in_use(10));
    assert!(factory.sequence_in_use(11));
}

#[test]
fn add_entry_mints_and_writes() {
    let mut pool = create_test_pool();
    let block = komachi_db::block::add_entry(9, ValueType::Value, &[1, 2], b"vv", &mut pool)
        .unwrap();
    assert_eq!(block.key_slice(&pool), vec![1, 2]);
    let tag = block.value_tag(&pool);
    assert_eq!(tag.sequence_number, 9);
    assert!(tag.is_value());
    // a sequence past 63 bits is refused and the pool stays as it was
    let used = pool.size();
    let r = komachi_db::block::add_entry(1u64 << 63, ValueType::Value, &[1], &[2], &mut pool);
    assert!(matches!(r, Err(komachi_db::error::Error::SequenceNumberOverflow)));
    assert_eq!(pool.size(), used);
}
