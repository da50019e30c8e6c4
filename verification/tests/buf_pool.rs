use hydra::buf_pool::BufPool;

#[test]
fn test_buf_pool_basic() {
    let mut pool = BufPool::new(1024, 4);

    let buf1 = pool.get();
    assert_eq!(buf1.len(), 1024);

    pool.put(buf1);
    assert_eq!(pool.available(), 1);

    let buf2 = pool.get();
    assert_eq!(buf2.len(), 1024);
    assert_eq!(pool.available(), 0);
}

#[test]
fn test_pool_capacity() {
    let mut pool = BufPool::new(1024, 2);

    let buf1 = pool.get();
    let buf2 = pool.get();
    let buf3 = pool.get();

    pool.put(buf1);
    pool.put(buf2);
    pool.put(buf3);

    assert_eq!(pool.available(), 2);
}

#[test]
fn reused_buffers_come_back_zeroed() {
    let mut pool = BufPool::new(8, 1);
    let mut b = pool.get();
    b[0] = 42;
    b.push(9);
    pool.put(b);
    let again = pool.get();
    assert_eq!(again, vec![0u8; 8]);
    assert_eq!(pool.buf_size(), 8);
}
