use std::collections::HashSet;
use std::sync::Mutex;

use veryfast::pool::ConfigError;
use veryfast::pool::Object;
use veryfast::pool::Pool;
use veryfast::registry::Registry;

#[test]
fn object_dereference() {
    let val = 5u64;
    let mut pool = Pool::with_params(false);
    let val2 = pool.push(val);
    assert_eq!(*val2.deref(&pool), val);
    let val3 = 7u64;
    *val2.deref_mut(&mut pool) = val3;
    assert_eq!(*val2.deref(&pool), val3);
}

#[test]
fn default_parameters_for_words() {
    let pool = Pool::<u64>::new();
    let summary = pool.summary();
    assert_eq!(summary.blocks, 0);
    assert_eq!(summary.batch, 512);
    assert_eq!(summary.stride, 8);
    assert_eq!(summary.bytes, 0);
    assert_eq!(summary.capacity, 0);
}

#[test]
fn cache_aligned_slots_take_whole_lines() {
    let pool = Pool::<u64>::with_params(true);
    let summary = pool.summary();
    assert_eq!(summary.stride, 64);
    assert_eq!(summary.batch, 64);

    let pool = Pool::<[u8; 100]>::with_params(true);
    let summary = pool.summary();
    assert_eq!(summary.stride, 128);
    assert_eq!(summary.batch, 32);

    let pool = Pool::<[u8; 100]>::with_params(false);
    let summary = pool.summary();
    assert_eq!(summary.stride, 100);
    assert_eq!(summary.batch, 40);
}

#[test]
fn system_parameters_decide_the_batch() {
    let pool = Pool::<u64>::with_system_params(false, 32, 1);
    assert_eq!(pool.summary().batch, 4);
    assert_eq!(pool.summary().stride, 8);

    let pool = Pool::<u64>::with_system_params(true, 32, 2);
    assert_eq!(pool.summary().batch, 2);
    assert_eq!(pool.summary().stride, 32);

    // an element larger than all the sets still gets a segment of one slot
    let pool = Pool::<[u64; 64]>::with_system_params(false, 16, 2);
    assert_eq!(pool.summary().batch, 1);
    assert_eq!(pool.summary().stride, 512);
}

#[test]
fn batch_size_is_taken_as_given() {
    let pool = Pool::<u32>::with_batch_size(7, false).unwrap();
    assert_eq!(pool.summary().batch, 7);
    assert_eq!(pool.summary().stride, 4);
    let pool = Pool::<u32>::with_batch_size(7, true).unwrap();
    assert_eq!(pool.summary().batch, 7);
    assert_eq!(pool.summary().stride, 64);
}

#[test]
fn zero_batch_size_is_refused() {
    let made = Pool::<u64>::with_batch_size(0, false);
    assert_eq!(made.err(), Some(ConfigError::ZeroBatchSize));
}

#[test]
fn zero_sized_type_is_refused() {
    let made = Pool::<()>::with_batch_size(4, false);
    assert_eq!(made.err(), Some(ConfigError::ZeroSizedType));
    let made = Pool::<()>::with_batch_size(0, true);
    assert_eq!(made.err(), Some(ConfigError::ZeroSizedType));
}

#[test]
fn oversized_segment_is_refused() {
    let made = Pool::<[u8; 1usize << 30]>::with_batch_size(usize::MAX / 2, false);
    assert_eq!(made.err(), Some(ConfigError::TooLarge));
}

#[test]
fn scenario_batch_of_four() {
    let mut pool = Pool::<u64>::with_batch_size(4, false).unwrap();
    let mut handles: Vec<Object<u64>> = Vec::new();
    for value in 1..=5u64 {
        assert!(pool.has_room());
        handles.push(pool.push(value));
    }
    assert_eq!(pool.summary().blocks, 2);
    assert_eq!(pool.outstanding(), 5);
    assert_eq!(pool.available(), 2 * 4 - 5);

    let third = handles.remove(2);
    assert_eq!(*third.deref(&pool), 3);
    let addr_of_third = third.address();
    Object::release(third, &mut pool);
    assert_eq!(pool.available(), 4);

    let sixth = pool.push(6);
    assert_eq!(sixth.address(), addr_of_third);
    assert_eq!(*sixth.deref(&pool), 6);
    assert_eq!(pool.summary().blocks, 2);
    assert_eq!(pool.available(), 3);
}

#[test]
fn first_slots_of_a_fresh_pool() {
    let mut pool = Pool::<u8>::with_batch_size(4, false).unwrap();
    // the first value opens a segment and takes its slot 0; the others take
    // the registered slots, the one registered last first
    let addresses: Vec<usize> = (0..5u8).map(|v| pool.push(v).address()).collect();
    assert_eq!(addresses, vec![0, 3, 2, 1, 4]);
}

#[test]
fn growth_threshold() {
    for batch in [1usize, 2, 4, 16] {
        let mut pool = Pool::<u32>::with_batch_size(batch, false).unwrap();
        let mut handles = Vec::new();
        for value in 0..batch {
            handles.push(pool.push(value as u32));
            assert_eq!(pool.summary().blocks, 1);
        }
        handles.push(pool.push(99));
        assert_eq!(pool.summary().blocks, 2);
        assert_eq!(pool.available(), batch - 1);
        assert_eq!(pool.summary().capacity, 2 * batch);
        assert_eq!(pool.summary().bytes, 2 * batch * 4);
    }
}

#[test]
fn released_slots_are_used_again() {
    let mut pool = Pool::<u64>::with_batch_size(4, false).unwrap();
    let n = 10;
    let mut handles = Vec::new();
    for value in 0..n {
        handles.push(pool.push(value));
    }
    let blocks = pool.summary().blocks;
    assert_eq!(blocks, 3);
    let mut released = HashSet::new();
    for handle in handles {
        released.insert(handle.address());
        Object::release(handle, &mut pool);
    }
    assert_eq!(pool.outstanding(), 0);
    assert_eq!(pool.available(), 12);
    let mut again = HashSet::new();
    for value in 0..n {
        again.insert(pool.push(value + 100).address());
    }
    assert_eq!(pool.summary().blocks, blocks);
    assert_eq!(again, released);
}

#[test]
fn recover_returns_what_was_stored() {
    let mut pool = Pool::<String>::with_batch_size(2, false).unwrap();
    let first = pool.push(String::from("first"));
    let second = pool.push(String::from("second"));
    let third = pool.push(String::from("third"));
    assert_eq!(Object::recover(second, &mut pool), "second");
    assert_eq!(Object::recover(first, &mut pool), "first");
    assert_eq!(Object::recover(third, &mut pool), "third");
    assert_eq!(pool.outstanding(), 0);
}

#[test]
fn release_drops_the_value() {
    let counter = std::rc::Rc::new(());
    let mut pool = Pool::<std::rc::Rc<()>>::with_batch_size(2, false).unwrap();
    let handle = pool.push(counter.clone());
    assert_eq!(std::rc::Rc::strong_count(&counter), 2);
    Object::release(handle, &mut pool);
    assert_eq!(std::rc::Rc::strong_count(&counter), 1);
    assert_eq!(pool.outstanding(), 0);
    assert_eq!(pool.available(), 2);
}

#[test]
fn outstanding_handles_have_distinct_addresses() {
    let mut pool = Pool::<u16>::with_batch_size(3, false).unwrap();
    let mut handles = Vec::new();
    let mut seen = HashSet::new();
    for round in 0..50u16 {
        handles.push(pool.push(round));
        if round % 3 == 2 {
            let handle = handles.swap_remove((round as usize * 7) % handles.len());
            Object::release(handle, &mut pool);
        }
        seen.clear();
        for handle in &handles {
            assert!(seen.insert(handle.address()));
            assert!(pool.holds(handle));
        }
        assert_eq!(pool.outstanding(), handles.len());
    }
}

#[test]
fn growth_leaves_stored_values_in_place() {
    let mut pool = Pool::<u64>::with_batch_size(2, false).unwrap();
    let first = pool.push(11);
    let address = first.address();
    let mut others = Vec::new();
    for value in 0..20 {
        others.push(pool.push(value));
        assert_eq!(first.address(), address);
        assert_eq!(*first.deref(&pool), 11);
    }
    assert_eq!(pool.summary().blocks, 11);
    for (value, handle) in others.iter().enumerate() {
        assert_eq!(*handle.deref(&pool), value as u64);
    }
}

#[test]
fn a_released_handle_is_no_longer_held() {
    let mut pool = Pool::<u8>::with_batch_size(4, false).unwrap();
    let mut other = Pool::<u8>::with_batch_size(4, false).unwrap();
    let foreign = other.push(1);
    assert!(!pool.holds(&foreign));
    let own = pool.push(2);
    assert!(pool.holds(&own));
    assert!(!pool.holds(&foreign) || foreign.address() == own.address());
}

#[test]
fn threads_insert_and_release() {
    let threads = 8;
    let per_thread = 200usize;
    let pool = Mutex::new(Pool::<usize>::with_batch_size(16, true).unwrap());
    let addresses = Mutex::new(HashSet::new());
    {
        let pool = &pool;
        let addresses = &addresses;
        crossbeam::scope(|scope| {
            for t in 0..threads {
                scope.spawn(move || {
                    let mut handles = Vec::new();
                    for k in 0..per_thread {
                        let mut pool = pool.lock().unwrap();
                        assert!(pool.has_room());
                        let handle = pool.push(t * per_thread + k);
                        drop(pool);
                        // no other outstanding handle has this address
                        assert!(addresses.lock().unwrap().insert(handle.address()));
                        handles.push(handle);
                    }
                    for (k, handle) in handles.into_iter().enumerate() {
                        assert!(addresses.lock().unwrap().remove(&handle.address()));
                        let mut pool = pool.lock().unwrap();
                        assert!(pool.holds(&handle));
                        assert_eq!(Object::recover(handle, &mut pool), t * per_thread + k);
                    }
                });
            }
        });
    }
    let pool = pool.into_inner().unwrap();
    assert_eq!(pool.outstanding(), 0);
    assert_eq!(pool.available(), pool.summary().capacity);
    assert!(pool.summary().capacity <= threads * per_thread + 16);
    assert!(addresses.into_inner().unwrap().is_empty());
}

#[test]
fn registry_is_last_in_first_out() {
    let mut registry = Registry::new();
    assert_eq!(registry.try_pop(), None);
    registry.push(10);
    registry.push(20);
    registry.push(30);
    assert_eq!(registry.try_pop(), Some(30));
    registry.push(40);
    assert_eq!(registry.try_pop(), Some(40));
    assert_eq!(registry.try_pop(), Some(20));
    assert_eq!(registry.try_pop(), Some(10));
    assert_eq!(registry.try_pop(), None);
    assert_eq!(registry.try_pop(), None);
}
