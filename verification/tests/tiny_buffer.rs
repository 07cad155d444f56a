use std::sync::Mutex;

use veryfast::tiny_buffer::TinyBufferPool;

#[test]
fn creation_burrow_rules() {
    let pool = TinyBufferPool::<i32>::new();
    {
        pool.create();
    }
}

#[test]
fn tiny_buffer_multiple_insertion_loops() {
    let pool = Mutex::new(TinyBufferPool::<i32>::new());
    {
        let buf = Mutex::new(pool.lock().unwrap().create());
        {
            let buf_ref = &buf;
            let pool_ref = &pool;
            crossbeam::scope(|s| {
                for i in 0..140 {
                    s.spawn(move || {
                        let mut pool = pool_ref.lock().unwrap();
                        buf_ref.lock().unwrap().push(&mut pool, i)
                    });
                }
            });
        }
        let count = buf.lock().unwrap().drain(&mut pool.lock().unwrap()).count();
        assert_eq!(count, 140);
        {
            let buf_ref = &buf;
            let pool_ref = &pool;
            crossbeam::scope(|s| {
                for i in 0..70 {
                    s.spawn(move || {
                        let mut pool = pool_ref.lock().unwrap();
                        buf_ref.lock().unwrap().push(&mut pool, i)
                    });
                }
            });
        }
        let count = buf.lock().unwrap().drain(&mut pool.lock().unwrap()).count();
        assert_eq!(count, 70);
    }
}

#[test]
fn tiny_buffer_keeps_the_order() {
    let mut pool = TinyBufferPool::<u32>::new();
    let mut buf = pool.create();
    for i in 0..100 {
        assert!(pool.has_room());
        buf.push(&mut pool, i);
    }
    assert_eq!(buf.len(), 100);
    let mut drain = buf.drain(&mut pool);
    assert_eq!(buf.len(), 0);
    for i in 0..100 {
        assert_eq!(drain.next(), Some(i));
    }
    assert_eq!(drain.next(), None);
}

#[test]
fn tiny_buffers_share_a_pool() {
    let mut pool = TinyBufferPool::<u32>::new();
    let mut evens = pool.create();
    let mut odds = pool.create();
    for i in 0..80 {
        if i % 2 == 0 {
            evens.push(&mut pool, i);
        } else {
            odds.push(&mut pool, i);
        }
    }
    let mut drain = evens.drain(&mut pool);
    for i in 0..40 {
        assert_eq!(drain.next(), Some(2 * i));
    }
    assert_eq!(drain.next(), None);
    // the chunks of the drained buffer serve the next one
    let mut more = pool.create();
    for i in 0..48 {
        more.push(&mut pool, 1000 + i);
    }
    let mut drain = odds.drain(&mut pool);
    for i in 0..40 {
        assert_eq!(drain.next(), Some(2 * i + 1));
    }
    assert_eq!(drain.count(), 0);
    let mut drain = more.drain(&mut pool);
    for i in 0..48 {
        assert_eq!(drain.next(), Some(1000 + i));
    }
    assert_eq!(drain.next(), None);
}

#[test]
fn tiny_buffer_items_change_in_place() {
    let mut pool = TinyBufferPool::<u32>::new();
    let mut buf = pool.create();
    for i in 0..35 {
        buf.push(&mut pool, i);
    }
    let mut iter = buf.iter_mut();
    let mut visited = 0;
    while let Some(item) = iter.next(&buf, &mut pool) {
        *item += 100;
        visited += 1;
    }
    assert_eq!(visited, 35);
    assert!(iter.next(&buf, &mut pool).is_none());
    let mut drain = buf.drain(&mut pool);
    for i in 0..35 {
        assert_eq!(drain.next(), Some(i + 100));
    }
    assert_eq!(drain.next(), None);
}
