use hydra::addr::{IpAddress, SockAddr};
use hydra::pool::{ConnectionPool, PoolConfig, PooledConnection};

fn node(last: u8, port: u16) -> SockAddr {
    SockAddr { ip: IpAddress::V4(0x7f00_0000 | last as u32), port }
}

#[test]
fn default_pool_config() {
    let c = PoolConfig::default();
    assert_eq!(c.max_idle_per_node, 4);
    assert_eq!(c.idle_timeout, std::time::Duration::from_secs(300));
    assert_eq!(c.cleanup_interval, std::time::Duration::from_secs(60));
    assert_eq!(c.connect_timeout, std::time::Duration::from_secs(10));
}

#[test]
fn record_use_counts_streams() {
    let mut pc = PooledConnection::new("conn", 5);
    assert_eq!(pc.use_count, 0);
    pc.record_use(9);
    pc.record_use(12);
    assert_eq!(pc.use_count, 2);
    assert_eq!(pc.last_used, 12);
}

#[test]
fn new_connections_are_kept_up_to_the_limit() {
    let mut cfg = PoolConfig::default();
    cfg.max_idle_per_node = 2;
    let mut pool: ConnectionPool<u32> = ConnectionPool::new(&cfg);
    let a = node(1, 443);
    assert!(pool.keep_new(a, PooledConnection::new(1, 0)));
    assert!(pool.keep_new(a, PooledConnection::new(2, 0)));
    assert!(!pool.keep_new(a, PooledConnection::new(3, 0)));
    assert_eq!(pool.stats(), vec![(a, 2)]);
    // warmed-up connections ignore the limit
    pool.add_warm(a, PooledConnection::new(4, 0));
    assert_eq!(pool.stats(), vec![(a, 3)]);
}

#[test]
fn zero_limit_still_records_the_address() {
    let mut cfg = PoolConfig::default();
    cfg.max_idle_per_node = 0;
    let mut pool: ConnectionPool<u32> = ConnectionPool::new(&cfg);
    let a = node(1, 443);
    assert!(!pool.keep_new(a, PooledConnection::new(1, 0)));
    assert_eq!(pool.stats(), vec![(a, 0)]);
}

#[test]
fn take_idle_is_last_in_first_out() {
    let mut pool: ConnectionPool<u32> = ConnectionPool::new(&PoolConfig::default());
    let a = node(1, 443);
    let b = node(2, 443);
    pool.add_warm(a, PooledConnection::new(10, 0));
    pool.add_warm(a, PooledConnection::new(11, 0));
    pool.add_warm(b, PooledConnection::new(20, 0));
    assert_eq!(pool.take_idle(a).map(|pc| pc.connection), Some(11));
    assert_eq!(pool.take_idle(a).map(|pc| pc.connection), Some(10));
    assert!(pool.take_idle(a).is_none());
    assert_eq!(pool.take_idle(b).map(|pc| pc.connection), Some(20));
    let mut pc = PooledConnection::new(30, 0);
    pc.record_use(1);
    pool.put_back(b, pc);
    assert_eq!(pool.take_idle(b).map(|pc| pc.use_count), Some(1));
}

#[test]
fn remove_all_reports_how_many() {
    let mut pool: ConnectionPool<u32> = ConnectionPool::new(&PoolConfig::default());
    let a = node(1, 443);
    assert_eq!(pool.remove_all(&a), None);
    pool.add_warm(a, PooledConnection::new(1, 0));
    pool.add_warm(a, PooledConnection::new(2, 0));
    assert_eq!(pool.remove_all(&a), Some(2));
    assert!(pool.stats().is_empty());
}

#[test]
fn cleanup_drops_closed_and_stale_connections() {
    let mut pool: ConnectionPool<u32> = ConnectionPool::new(&PoolConfig::default());
    let a = node(1, 443);
    let b = node(2, 443);
    // used at 100, 900 and 950; connection 2 is closed
    pool.add_warm(a, PooledConnection::new(1, 100));
    pool.add_warm(a, PooledConnection::new(2, 900));
    pool.add_warm(a, PooledConnection::new(3, 950));
    pool.add_warm(b, PooledConnection::new(4, 100));
    pool.cleanup(1000, 500, |c: &u32| *c != 2);
    assert_eq!(pool.stats(), vec![(a, 1)]);
    assert_eq!(pool.take_idle(a).map(|pc| pc.connection), Some(3));
}
