use mediabox::memory::{MemoryPool, MemoryPoolConfig};

#[test]
fn test_memory_pool_capacity() {
    let config = MemoryPoolConfig {
        max_capacity: Some(1),
        default_memory_capacity: 1024,
    };
    let mut pool = MemoryPool::new(config);

    let first = pool.try_alloc(1024);
    assert!(first.is_some());

    let second = pool.try_alloc(1024);
    assert!(second.is_none());
}

#[test]
fn test_memory_pool_capacity_and_return_memory() {
    let config = MemoryPoolConfig {
        max_capacity: Some(1),
        default_memory_capacity: 1024,
    };
    let mut pool = MemoryPool::new(config);

    let first = pool.try_alloc(1024);
    assert!(first.is_some());

    let second = pool.try_alloc(1024);
    assert!(second.is_none());

    drop(first);

    let third = pool.try_alloc(1024);
    assert!(third.is_some());
}

#[test]
fn test_memory_pool_capacity_and_return_memory_and_alloc_over_default() {
    let config = MemoryPoolConfig {
        max_capacity: Some(1),
        default_memory_capacity: 1024,
    };
    let mut pool = MemoryPool::new(config);

    let first = pool.try_alloc(1024);
    match first {
        Some(ref mem) => assert_eq!(mem.len(), 1024),
        None => panic!("expected memory"),
    }

    let second = pool.try_alloc(1024);
    assert!(second.is_none());

    drop(first);

    let third = pool.try_alloc(2048);
    match third {
        Some(mem) => assert!(mem.len() >= 2048),
        None => panic!("expected memory"),
    }
}

#[test]
fn test_memory_pool_alloc_over_default_1024() {
    let mut pool = MemoryPool::new(MemoryPoolConfig {
        max_capacity: None,
        default_memory_capacity: 1024,
    });
    let first = pool.try_alloc(1024);
    assert_eq!(first.map(|m| m.len()), Some(1024));
}

#[test]
fn test_memory_pool_alloc_over_default_2048() {
    let mut pool = MemoryPool::new(MemoryPoolConfig {
        max_capacity: None,
        default_memory_capacity: 1024,
    });
    let first = pool.try_alloc(2048);
    assert_eq!(first.map(|m| m.len()), Some(2048));
}

#[test]
fn test_memory_pool_alloc_under_default() {
    let config = MemoryPoolConfig {
        max_capacity: None,
        default_memory_capacity: 1024,
    };
    let mut pool = MemoryPool::new(config);

    let first = pool.try_alloc(512);
    match first {
        Some(mem) => assert_eq!(mem.len(), 1024),
        None => panic!("expected memory"),
    }
}

#[test]
fn pool_reuses_returned_buffer() {
    let mut pool = MemoryPool::new(MemoryPoolConfig {
        max_capacity: Some(1),
        default_memory_capacity: 100,
    });
    let mut first = pool.try_alloc(100).unwrap();
    first.write_at(0, b"kept");
    drop(first);
    let again = pool.try_alloc(50).unwrap();
    assert_eq!(again.len(), 100);
    assert_eq!(&again.as_slice()[..4], b"kept");
}

#[test]
fn pool_picks_smallest_fitting_buffer() {
    let mut pool = MemoryPool::new(MemoryPoolConfig {
        max_capacity: Some(2),
        default_memory_capacity: 10,
    });
    let big = pool.try_alloc(300).unwrap();
    let small = pool.try_alloc(20).unwrap();
    drop(big);
    drop(small);
    let got = pool.try_alloc(15).unwrap();
    assert_eq!(got.len(), 20);
}

#[test]
fn pool_grows_in_place_when_capped() {
    let mut pool = MemoryPool::new(MemoryPoolConfig {
        max_capacity: Some(1),
        default_memory_capacity: 8,
    });
    let mut m = pool.try_alloc(8).unwrap();
    m.write_at(0, b"ab");
    drop(m);
    let grown = pool.try_alloc(16).unwrap();
    assert_eq!(grown.len(), 16);
    assert_eq!(&grown.as_slice()[..2], b"ab");
    assert!(grown.as_slice()[8..].iter().all(|&b| b == 0));
}

#[test]
fn pool_alloc_wait_gets_returned_buffer() {
    let mut pool = MemoryPool::new(MemoryPoolConfig {
        max_capacity: Some(1),
        default_memory_capacity: 64,
    });
    let first = pool.alloc_wait(64).unwrap();
    drop(first);
    let second = pool.alloc_wait(32).unwrap();
    assert_eq!(second.len(), 64);
}
