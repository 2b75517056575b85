use rtfm_sched::queue::round_up_capacity;
use rtfm_sched::queue::Queue;
use rtfm_sched::slots::SlotPool;

#[test]
fn queue_capacity_is_a_power_of_two() {
    assert_eq!(Queue::<u8>::new(5).cap(), 8);
    assert_eq!(Queue::<u8>::new(8).cap(), 8);
    assert_eq!(Queue::<u8>::new(0).cap(), 1);
    assert_eq!(Queue::<u8>::new(1).cap(), 1);
    assert_eq!(Queue::<u8>::new(9).cap(), 16);
    assert_eq!(Queue::<u8>::new(129).cap(), 256);
    assert_eq!(Queue::<u8>::new(255).cap(), 256);
    for declared in 0..=255u8 {
        let cap = round_up_capacity(declared);
        assert!(cap.is_power_of_two());
        assert!(cap >= declared as usize);
        assert_eq!(cap, (declared as usize).next_power_of_two());
    }
}

#[test]
fn queue_is_first_in_first_out() {
    let mut q: Queue<u32> = Queue::new(4);
    assert!(q.is_empty());
    assert_eq!(q.try_push(10), Ok(()));
    assert_eq!(q.try_push(20), Ok(()));
    assert_eq!(q.try_push(30), Ok(()));
    assert_eq!(q.len(), 3);
    assert_eq!(q.peek(), Some(10));
    assert_eq!(q.try_pop(), Some(10));
    assert_eq!(q.try_pop(), Some(20));
    assert_eq!(q.try_push(40), Ok(()));
    assert_eq!(q.try_pop(), Some(30));
    assert_eq!(q.try_pop(), Some(40));
    assert_eq!(q.try_pop(), None);
    assert!(q.is_empty());
}

#[test]
fn push_into_a_full_queue_hands_the_item_back() {
    let mut q: Queue<u32> = Queue::new(5);
    for i in 0..8 {
        assert!(!q.is_full());
        assert_eq!(q.try_push(i), Ok(()));
    }
    assert!(q.is_full());
    assert_eq!(q.len(), 8);
    assert_eq!(q.try_push(99), Err(99));
    assert_eq!(q.len(), 8);
    for i in 0..8 {
        assert_eq!(q.try_pop(), Some(i));
    }
    assert_eq!(q.try_pop(), None);
}

#[test]
fn pop_from_an_empty_queue_gives_nothing() {
    let mut q: Queue<u8> = Queue::new(2);
    assert_eq!(q.try_pop(), None);
    assert_eq!(q.peek(), None);
    assert_eq!(q.len(), 0);
    assert_eq!(q.try_push(1), Ok(()));
    assert_eq!(q.try_pop(), Some(1));
    assert_eq!(q.try_pop(), None);
}

#[test]
fn queue_of_one_slot() {
    let mut q: Queue<u8> = Queue::new(0);
    assert_eq!(q.cap(), 1);
    assert_eq!(q.try_push(1), Ok(()));
    assert_eq!(q.try_push(2), Err(2));
    assert_eq!(q.try_pop(), Some(1));
    assert_eq!(q.try_push(3), Ok(()));
    assert_eq!(q.try_pop(), Some(3));
    assert_eq!(q.try_pop(), None);
}

#[test]
fn queue_keeps_order_while_the_indices_wrap() {
    let mut q: Queue<u32> = Queue::new(4);
    let mut next_in = 0u32;
    let mut next_out = 0u32;
    for round in 0..200u32 {
        let pushes = 1 + round % 4;
        for _ in 0..pushes {
            match q.try_push(next_in) {
                Ok(()) => next_in += 1,
                Err(back) => {
                    assert_eq!(back, next_in);
                    assert!(q.is_full());
                }
            }
        }
        let pops = 1 + (round / 3) % 4;
        for _ in 0..pops {
            match q.try_pop() {
                Some(item) => {
                    assert_eq!(item, next_out);
                    next_out += 1;
                }
                None => assert_eq!(next_in, next_out),
            }
        }
        assert_eq!(q.len() as u32, next_in - next_out);
    }
    while let Some(item) = q.try_pop() {
        assert_eq!(item, next_out);
        next_out += 1;
    }
    assert_eq!(next_in, next_out);
    assert!(next_in > 100);
}

#[test]
fn largest_queue_fills_and_drains() {
    let mut q: Queue<u16> = Queue::new(255);
    for i in 0..256u16 {
        assert_eq!(q.try_push(i), Ok(()));
    }
    assert_eq!(q.try_push(256), Err(256));
    for i in 0..256u16 {
        assert_eq!(q.try_pop(), Some(i));
    }
    assert_eq!(q.try_pop(), None);
}

#[test]
fn pool_hands_out_each_slot_once() {
    let mut pool: SlotPool<&str> = SlotPool::new(3);
    assert_eq!(pool.capacity(), 3);
    assert_eq!(pool.available(), 3);
    assert_eq!(pool.claim("a"), Ok(0));
    assert_eq!(pool.claim("b"), Ok(1));
    assert_eq!(pool.claim("c"), Ok(2));
    assert_eq!(pool.available(), 0);
    assert_eq!(pool.claim("d"), Err("d"));
    assert_eq!(pool.release(1), Some("b"));
    assert_eq!(pool.available(), 1);
    assert_eq!(pool.claim("e"), Ok(1));
    assert_eq!(pool.release(0), Some("a"));
    assert_eq!(pool.release(2), Some("c"));
    assert_eq!(pool.release(1), Some("e"));
    assert_eq!(pool.available(), 3);
}

#[test]
fn pool_releases_a_slot_once() {
    let mut pool: SlotPool<u32> = SlotPool::new(2);
    assert_eq!(pool.release(0), None);
    assert_eq!(pool.claim(7), Ok(0));
    assert_eq!(pool.release(5), None);
    assert_eq!(pool.release(1), None);
    assert_eq!(pool.release(0), Some(7));
    assert_eq!(pool.release(0), None);
    assert_eq!(pool.available(), 2);
}

#[test]
fn pool_recycles_slots_in_the_order_of_their_release() {
    let mut pool: SlotPool<u32> = SlotPool::new(3);
    assert_eq!(pool.claim(1), Ok(0));
    assert_eq!(pool.claim(2), Ok(1));
    assert_eq!(pool.claim(3), Ok(2));
    assert_eq!(pool.release(2), Some(3));
    assert_eq!(pool.release(0), Some(1));
    assert_eq!(pool.claim(4), Ok(2));
    assert_eq!(pool.claim(5), Ok(0));
    assert_eq!(pool.claim(6), Err(6));
}

#[test]
fn pool_without_slots_refuses_everything() {
    let mut pool: SlotPool<String> = SlotPool::new(0);
    assert_eq!(pool.capacity(), 0);
    assert_eq!(pool.claim(String::from("x")), Err(String::from("x")));
    assert_eq!(pool.release(0), None);
}

#[test]
fn largest_pool_fills_and_drains() {
    let mut pool: SlotPool<u32> = SlotPool::new(255);
    for i in 0..255u32 {
        assert_eq!(pool.claim(i), Ok(i as u8));
    }
    assert_eq!(pool.claim(999), Err(999));
    for i in 0..255u32 {
        assert_eq!(pool.release(i as u8), Some(i));
    }
    assert_eq!(pool.available(), 255);
}
