use redistill::pool::{get_buffer, keeps_buffer, return_buffer, return_sized, BufferPool};
use redistill::stats::{Batch, LocalCount, RateLimiter, ServerStats};

#[test]
fn buffers_come_from_the_pool() {
    let mut pool = BufferPool::new(2, 64);
    assert_eq!(pool.len(), 2);
    let first = get_buffer(&mut pool);
    assert!(first.is_empty());
    assert!(first.capacity() >= 64);
    let _second = get_buffer(&mut pool);
    assert_eq!(pool.len(), 0);
    let third = get_buffer(&mut pool);
    assert!(third.is_empty());
    assert!(third.capacity() >= 64);
    assert_eq!(pool.len(), 0);
}

#[test]
fn buffers_are_emptied_when_given_back() {
    let mut pool = BufferPool::new(0, 64);
    return_buffer(&mut pool, b"left over".to_vec());
    assert_eq!(pool.len(), 1);
    assert!(get_buffer(&mut pool).is_empty());
}

#[test]
fn buffers_leave_the_pool_in_order() {
    let mut pool = BufferPool::new(0, 64);
    return_buffer(&mut pool, Vec::with_capacity(70));
    return_buffer(&mut pool, Vec::with_capacity(100));
    assert!(get_buffer(&mut pool).capacity() < 100);
    assert!(get_buffer(&mut pool).capacity() >= 100);
}

#[test]
fn large_buffers_are_dropped() {
    let mut pool = BufferPool::new(8, 16);
    return_buffer(&mut pool, vec![0; 65]);
    assert_eq!(pool.len(), 8);
    return_buffer(&mut pool, vec![0; 40]);
    assert_eq!(pool.len(), 8);
    return_buffer(&mut pool, vec![0; 16]);
    assert_eq!(pool.len(), 9);
}

#[test]
fn larger_buffers_are_kept_while_the_pool_is_low() {
    assert!(keeps_buffer(128, 64, 100, 8));
    assert!(!keeps_buffer(129, 64, 2, 8));
    assert!(keeps_buffer(129, 64, 1, 8));
    assert!(keeps_buffer(256, 64, 1, 8));
    assert!(!keeps_buffer(257, 64, 0, 8));
    assert!(keeps_buffer(usize::MAX, usize::MAX, 0, 0));
}

#[test]
fn the_room_in_a_buffer_decides_whether_it_is_kept() {
    let mut pool = BufferPool::new(8, 64);
    return_sized(&mut pool, b"left over".to_vec(), 128);
    assert_eq!(pool.len(), 9);
    return_sized(&mut pool, Vec::new(), 129);
    assert_eq!(pool.len(), 9);
    for _ in 0..8 {
        assert!(get_buffer(&mut pool).is_empty());
    }
    assert_eq!(pool.len(), 1);
    return_sized(&mut pool, b"large".to_vec(), 256);
    assert_eq!(pool.len(), 2);
    return_sized(&mut pool, Vec::new(), 129);
    assert_eq!(pool.len(), 2);
    assert!(get_buffer(&mut pool).is_empty());
    assert!(get_buffer(&mut pool).is_empty());
    return_sized(&mut pool, Vec::new(), 257);
    assert_eq!(pool.len(), 0);
}

#[test]
fn commands_are_counted_in_batches() {
    let mut stats = ServerStats::new();
    let mut count = LocalCount::new();
    for _ in 0..255 {
        count.record(&mut stats);
    }
    assert_eq!((stats.total_commands, count.commands), (0, 255));
    count.record(&mut stats);
    assert_eq!((stats.total_commands, count.commands), (256, 0));
    count.record(&mut stats);
    count.drain(&mut stats);
    assert_eq!((stats.total_commands, count.commands), (257, 0));
}

#[test]
fn connections_are_counted() {
    let mut stats = ServerStats::new();
    stats.connection_opened();
    stats.connection_opened();
    stats.connection_closed();
    stats.connection_rejected();
    assert_eq!(stats.total_connections, 2);
    assert_eq!(stats.active_connections, 1);
    assert_eq!(stats.rejected_connections, 1);
}

#[test]
fn connections_are_limited() {
    let mut stats = ServerStats::new();
    assert!(stats.admits(0));
    assert!(stats.admits(1));
    stats.connection_opened();
    assert!(!stats.admits(1));
    assert!(stats.admits(2));
    assert!(stats.admits(0));
}

#[test]
fn connections_per_second_are_limited() {
    let mut limiter = RateLimiter::new();
    assert!(limiter.check_rate_limit(2, 100));
    assert!(limiter.check_rate_limit(2, 100));
    assert!(!limiter.check_rate_limit(2, 100));
    assert!(limiter.check_rate_limit(2, 101));
    assert!(limiter.check_rate_limit(0, 101));
}

#[test]
fn replies_are_sent_when_due() {
    let mut batch = Batch::new();
    assert!(!batch.request_done(3, 0, 100, true));
    assert!(!batch.request_done(3, 99, 100, true));
    assert_eq!(batch.requests, 2);
    assert!(batch.request_done(3, 0, 100, true));
    assert_eq!(batch.requests, 0);
    assert!(batch.request_done(16, 100, 100, true));
    assert!(batch.request_done(16, 0, 100, false));
    assert!(batch.request_done(0, 0, 100, true));
    assert_eq!(batch.requests, 0);
}
