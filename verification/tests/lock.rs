use rtfm_sched::barrier::Barrier;
use rtfm_sched::barrier::Event;
use rtfm_sched::barrier::Rendezvous;
use rtfm_sched::barrier::Wait;
use rtfm_sched::dispatch::Dispatch;
use rtfm_sched::dispatch::Dispatcher;
use rtfm_sched::dispatch::Ready;
use rtfm_sched::lock::Priority;

#[test]
fn lock_raises_the_threshold_to_the_ceiling() {
    let mut priority = Priority::new(1);
    let mut shared = 10u32;
    assert_eq!(priority.get(), 1);
    let seen = priority.lock(3, &mut shared, |p: &mut Priority, x: &mut u32| {
        *x += 1;
        p.get()
    });
    assert_eq!(seen, 3);
    assert_eq!(shared, 11);
    assert_eq!(priority.get(), 1);
}

#[test]
fn lock_returns_what_the_body_returns() {
    let mut priority = Priority::new(2);
    let mut shared = String::from("abc");
    let len = priority.lock(2, &mut shared, |_: &mut Priority, s: &mut String| {
        s.push('d');
        s.len()
    });
    assert_eq!(len, 4);
    assert_eq!(shared, "abcd");
    assert_eq!(priority.get(), 2);
}

#[test]
fn locks_nest_and_unwind_in_order() {
    let mut priority = Priority::new(1);
    let mut low = 0u32;
    let mut high = 0u32;
    let mut trace = Vec::new();
    trace.push(priority.get());
    priority.lock(2, &mut low, |p: &mut Priority, a: &mut u32| {
        *a = 1;
        trace.push(p.get());
        p.lock(4, &mut high, |p: &mut Priority, b: &mut u32| {
            *b = 2;
            trace.push(p.get());
        });
        trace.push(p.get());
    });
    trace.push(priority.get());
    assert_eq!(trace, vec![1, 2, 4, 2, 1]);
    assert_eq!((low, high), (1, 2));
}

#[test]
fn lock_below_the_threshold_leaves_it_as_it_is() {
    let mut priority = Priority::new(1);
    let mut outer = 0u8;
    let mut inner = 0u8;
    priority.lock(5, &mut outer, |p: &mut Priority, _: &mut u8| {
        assert_eq!(p.get(), 5);
        let seen = p.lock(3, &mut inner, |p: &mut Priority, _: &mut u8| p.get());
        assert_eq!(seen, 5);
        assert_eq!(p.get(), 5);
    });
    assert_eq!(priority.get(), 1);
}

#[test]
fn lock_restores_the_priority_whatever_the_body_does() {
    let mut priority = Priority::new(1);
    let mut shared = 0u8;
    priority.lock(3, &mut shared, |p: &mut Priority, _: &mut u8| {
        *p = Priority::new(200);
    });
    assert_eq!(priority.get(), 1);
    assert!(priority.admits(2));
}

#[test]
fn threshold_masks_tasks_at_or_below_the_ceiling() {
    let mut priority = Priority::new(1);
    let mut shared = 0u8;
    assert!(priority.admits(2));
    assert!(priority.admits(3));
    assert!(!priority.admits(1));
    assert!(!priority.admits(0));
    priority.lock(3, &mut shared, |p: &mut Priority, _: &mut u8| {
        assert!(!p.admits(1));
        assert!(!p.admits(2));
        assert!(!p.admits(3));
        assert!(p.admits(4));
        assert!(p.admits(255));
    });
    assert!(priority.admits(2));
}

#[test]
fn barrier_holds_a_core_that_waits_before_the_signal() {
    let mut barrier = Barrier::new();
    assert_eq!(barrier.poll(), Wait::Spin);
    assert_eq!(barrier.poll(), Wait::Spin);
    barrier.release();
    assert_eq!(barrier.poll(), Wait::Proceed);
    assert_eq!(barrier.poll(), Wait::Proceed);
}

#[test]
fn barrier_lets_a_core_pass_that_waits_after_the_signal() {
    let mut barrier = Barrier::new();
    barrier.release();
    assert_eq!(barrier.poll(), Wait::Proceed);
    barrier.release();
    assert_eq!(barrier.poll(), Wait::Proceed);
}

#[test]
fn barrier_answers_every_interleaving_of_four_events() {
    for pattern in 0..16u32 {
        let mut barrier = Barrier::new();
        let mut released = false;
        for position in 0..4 {
            let event = if pattern >> position & 1 == 1 { Event::Release } else { Event::Poll };
            match barrier.apply(&event) {
                None => released = true,
                Some(wait) => {
                    assert_eq!(wait, if released { Wait::Proceed } else { Wait::Spin });
                }
            }
        }
    }
}

#[test]
fn rendezvous_waits_for_the_other_core() {
    let mut meeting = Rendezvous::new(2);
    assert_eq!(meeting.poll(0), Wait::Spin);
    assert_eq!(meeting.poll(1), Wait::Spin);
    meeting.arrive(0);
    assert_eq!(meeting.poll(0), Wait::Spin);
    assert_eq!(meeting.poll(1), Wait::Proceed);
    meeting.arrive(1);
    assert_eq!(meeting.poll(0), Wait::Proceed);
    assert_eq!(meeting.poll(1), Wait::Proceed);
}

#[test]
fn rendezvous_of_three_waits_for_all_others() {
    let mut meeting = Rendezvous::new(3);
    meeting.arrive(2);
    meeting.arrive(0);
    assert_eq!(meeting.poll(0), Wait::Spin);
    assert_eq!(meeting.poll(1), Wait::Proceed);
    assert_eq!(meeting.poll(2), Wait::Spin);
    meeting.arrive(7);
    assert_eq!(meeting.poll(0), Wait::Spin);
    meeting.arrive(1);
    assert_eq!(meeting.poll(0), Wait::Proceed);
    assert_eq!(meeting.poll(2), Wait::Proceed);
}

#[test]
fn rendezvous_of_one_core_never_waits() {
    let meeting = Rendezvous::new(1);
    assert_eq!(meeting.poll(0), Wait::Proceed);
    let nobody = Rendezvous::new(0);
    assert_eq!(nobody.poll(0), Wait::Proceed);
}

#[test]
fn spawn_barrier_holds_the_dispatcher_until_released() {
    let mut barrier = Barrier::new();
    let mut dispatcher = Dispatcher::new(2, 2);
    assert_eq!(dispatcher.push(1, Ready { task: 5, slot: 0 }), Ok(()));
    assert_eq!(barrier.guard(&mut dispatcher), Dispatch::Idle);
    assert_eq!(barrier.guard(&mut dispatcher), Dispatch::Idle);
    barrier.release();
    assert_eq!(barrier.guard(&mut dispatcher), Dispatch::Run(Ready { task: 5, slot: 0 }));
    assert_eq!(barrier.guard(&mut dispatcher), Dispatch::Idle);
}
