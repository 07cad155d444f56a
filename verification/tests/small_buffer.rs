use std::sync::Mutex;

use veryfast::small_buffer::SmallBuffer;

#[test]
fn small_buffer_multiple_insertion_loops() {
    let buf = Mutex::new(SmallBuffer::<i32>::new());
    {
        let buf_ref = &buf;
        crossbeam::scope(|s| {
            for i in 0..140 {
                s.spawn(move || buf_ref.lock().unwrap().push(i));
            }
        });
    }
    let count = buf.lock().unwrap().drain().count();
    assert_eq!(count, 140);
    {
        let buf_ref = &buf;
        crossbeam::scope(|s| {
            for i in 0..70 {
                s.spawn(move || buf_ref.lock().unwrap().push(i));
            }
        });
    }
    let count = buf.lock().unwrap().drain().count();
    assert_eq!(count, 70);
}

#[test]
fn small_buffer_keeps_the_order() {
    let mut buf = SmallBuffer::<u32>::new();
    assert_eq!(buf.len(), 0);
    for i in 0..50 {
        buf.push(i);
    }
    assert_eq!(buf.len(), 50);
    let mut drain = buf.drain();
    assert_eq!(buf.len(), 0);
    for i in 0..50 {
        assert_eq!(drain.next(), Some(i));
    }
    assert_eq!(drain.next(), None);
    assert_eq!(drain.next(), None);
}

#[test]
fn small_buffer_chunk_boundaries() {
    for n in [0usize, 1, 15, 16, 17, 31, 32, 33, 48] {
        let mut buf = SmallBuffer::<usize>::new();
        for i in 0..n {
            buf.push(i);
        }
        let mut drain = buf.drain();
        for i in 0..n {
            assert_eq!(drain.next(), Some(i));
        }
        assert_eq!(drain.next(), None);
        // the emptied buffer takes items again
        buf.push(7);
        buf.push(8);
        assert_eq!(buf.len(), 2);
        let mut drain = buf.drain();
        assert_eq!(drain.next(), Some(7));
        assert_eq!(drain.count(), 1);
    }
}

#[test]
fn small_buffer_partial_drain_empties_the_buffer() {
    let mut buf = SmallBuffer::<String>::new();
    for i in 0..20 {
        buf.push(format!("item {}", i));
    }
    {
        let mut drain = buf.drain();
        assert_eq!(drain.next(), Some(String::from("item 0")));
        assert_eq!(drain.next(), Some(String::from("item 1")));
    }
    assert_eq!(buf.len(), 0);
    assert_eq!(buf.drain().count(), 0);
}
