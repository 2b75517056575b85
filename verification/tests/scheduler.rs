use rtfm_sched::config::ConfigError;
use rtfm_sched::lock::Priority;
use rtfm_sched::scheduler::Scheduler;
use rtfm_sched::scheduler::TaskSpec;
use rtfm_sched::task::Alarm;

fn task(priority: u8, capacity: u8) -> TaskSpec {
    TaskSpec { priority, capacity }
}

fn scheduler(tasks: Vec<TaskSpec>) -> Scheduler<u32> {
    match Scheduler::new(tasks) {
        Ok(scheduler) => scheduler,
        Err(error) => panic!("{:?}", error),
    }
}

#[test]
fn spawned_task_is_dispatched_once_with_its_payload() {
    let mut s = scheduler(vec![task(1, 2)]);
    assert_eq!(s.available(0), 2);
    assert_eq!(s.spawn(0, 7), Ok(()));
    assert_eq!(s.pending(1), 1);
    assert_eq!(s.available(0), 1);
    assert_eq!(s.dispatch(), Some((0, 7)));
    assert_eq!(s.pending(1), 0);
    assert_eq!(s.available(0), 2);
    assert_eq!(s.dispatch(), None);
}

#[test]
fn spawn_succeeds_up_to_the_declared_capacity() {
    for capacity in [0u8, 1, 2, 5, 8, 255] {
        let mut s = scheduler(vec![task(3, capacity)]);
        for i in 0..u32::from(capacity) {
            assert_eq!(s.spawn(0, i), Ok(()));
        }
        assert_eq!(s.spawn(0, 1_000), Err(1_000));
        assert_eq!(s.pending(3), usize::from(capacity));
        for i in 0..u32::from(capacity) {
            assert_eq!(s.dispatch(), Some((0, i)));
        }
        assert_eq!(s.dispatch(), None);
        if capacity > 0 {
            assert_eq!(s.spawn(0, 1_000), Ok(()));
        }
    }
}

#[test]
fn spawn_of_an_unknown_task_hands_the_payload_back() {
    let mut s = scheduler(vec![task(1, 1)]);
    assert_eq!(s.spawn(1, 5), Err(5));
    assert_eq!(s.spawn(255, 6), Err(6));
    assert_eq!(s.schedule(1, 10, 7), Err(7));
    assert_eq!(s.available(1), 0);
    assert_eq!(s.dispatch(), None);
    let mut none = scheduler(vec![]);
    assert_eq!(none.spawn(0, 5), Err(5));
    assert_eq!(none.dispatch(), None);
    assert_eq!(none.on_timer(100), Alarm::Off);
}

#[test]
fn dispatch_takes_the_highest_priority_first() {
    let mut s = scheduler(vec![task(1, 2), task(3, 2), task(2, 2), task(3, 1)]);
    assert_eq!(s.spawn(0, 10), Ok(()));
    assert_eq!(s.spawn(2, 20), Ok(()));
    assert_eq!(s.spawn(1, 30), Ok(()));
    assert_eq!(s.spawn(3, 31), Ok(()));
    assert_eq!(s.spawn(0, 11), Ok(()));
    assert_eq!(s.spawn(1, 32), Ok(()));
    assert_eq!(s.pending(3), 3);
    assert_eq!(s.pending(2), 1);
    assert_eq!(s.pending(1), 2);
    assert_eq!(s.pending(0), 0);
    assert_eq!(s.dispatch(), Some((1, 30)));
    assert_eq!(s.dispatch(), Some((3, 31)));
    assert_eq!(s.dispatch(), Some((1, 32)));
    assert_eq!(s.dispatch(), Some((2, 20)));
    assert_eq!(s.spawn(1, 33), Ok(()));
    assert_eq!(s.dispatch(), Some((1, 33)));
    assert_eq!(s.dispatch(), Some((0, 10)));
    assert_eq!(s.dispatch(), Some((0, 11)));
    assert_eq!(s.dispatch(), None);
}

#[test]
fn scheduled_task_is_not_dispatched_before_its_instant() {
    let mut s = scheduler(vec![task(1, 2)]);
    assert_eq!(s.schedule(0, 100, 7), Ok(()));
    assert_eq!(s.waiting(), 1);
    assert_eq!(s.alarm(), Alarm::At(100));
    assert_eq!(s.on_timer(50), Alarm::At(100));
    assert_eq!(s.dispatch(), None);
    assert_eq!(s.on_timer(99), Alarm::At(100));
    assert_eq!(s.dispatch(), None);
    assert_eq!(s.on_timer(100), Alarm::Off);
    assert_eq!(s.waiting(), 0);
    assert_eq!(s.dispatch(), Some((0, 7)));
    assert_eq!(s.dispatch(), None);
    assert_eq!(s.on_timer(200), Alarm::Off);
    assert_eq!(s.dispatch(), None);
}

#[test]
fn task_scheduled_for_the_past_is_dispatched_after_the_next_interrupt() {
    let mut s = scheduler(vec![task(1, 2)]);
    assert_eq!(s.schedule(0, 10, 8), Ok(()));
    assert_eq!(s.dispatch(), None);
    assert_eq!(s.on_timer(50), Alarm::Off);
    assert_eq!(s.dispatch(), Some((0, 8)));
}

#[test]
fn timer_moves_due_entries_to_the_queue_of_their_priority() {
    let mut s = scheduler(vec![task(1, 3), task(2, 3)]);
    assert_eq!(s.schedule(0, 30, 130), Ok(()));
    assert_eq!(s.schedule(1, 20, 220), Ok(()));
    assert_eq!(s.schedule(0, 10, 110), Ok(()));
    assert_eq!(s.schedule(1, 40, 240), Ok(()));
    assert_eq!(s.schedule(0, 10, 111), Ok(()));
    assert_eq!(s.schedule(1, 20, 221), Ok(()));
    assert_eq!(s.schedule(0, 5, 999), Err(999));
    assert_eq!(s.on_timer(30), Alarm::At(40));
    assert_eq!(s.pending(1), 3);
    assert_eq!(s.pending(2), 2);
    assert_eq!(s.waiting(), 1);
    assert_eq!(s.dispatch(), Some((1, 220)));
    assert_eq!(s.dispatch(), Some((1, 221)));
    assert_eq!(s.dispatch(), Some((0, 110)));
    assert_eq!(s.dispatch(), Some((0, 111)));
    assert_eq!(s.dispatch(), Some((0, 130)));
    assert_eq!(s.dispatch(), None);
    assert_eq!(s.on_timer(40), Alarm::Off);
    assert_eq!(s.dispatch(), Some((1, 240)));
}

#[test]
fn spawn_and_schedule_share_the_slots_of_a_task() {
    let mut s = scheduler(vec![task(1, 2)]);
    assert_eq!(s.schedule(0, 10, 1), Ok(()));
    assert_eq!(s.spawn(0, 2), Ok(()));
    assert_eq!(s.spawn(0, 3), Err(3));
    assert_eq!(s.schedule(0, 10, 3), Err(3));
    assert_eq!(s.dispatch(), Some((0, 2)));
    assert_eq!(s.schedule(0, 5, 3), Ok(()));
    assert_eq!(s.on_timer(10), Alarm::Off);
    assert_eq!(s.dispatch(), Some((0, 3)));
    assert_eq!(s.dispatch(), Some((0, 1)));
    assert_eq!(s.dispatch(), None);
    assert_eq!(s.available(0), 2);
}

#[test]
fn schedule_fails_only_when_the_slots_of_the_task_are_used_up() {
    let mut s = scheduler(vec![task(1, 3), task(2, 2)]);
    assert_eq!(s.schedule(0, 30, 1), Ok(()));
    assert_eq!(s.schedule(0, 20, 2), Ok(()));
    assert_eq!(s.schedule(0, 10, 3), Ok(()));
    assert_eq!(s.schedule(0, 10, 4), Err(4));
    assert_eq!(s.schedule(1, 10, 5), Ok(()));
    assert_eq!(s.schedule(1, 10, 6), Ok(()));
    assert_eq!(s.schedule(1, 10, 7), Err(7));
    assert_eq!(s.waiting(), 5);
    assert_eq!(s.on_timer(10), Alarm::At(20));
    assert_eq!(s.schedule(0, 10, 4), Err(4));
    assert_eq!(s.dispatch(), Some((1, 5)));
    assert_eq!(s.schedule(1, 5, 7), Ok(()));
    assert_eq!(s.alarm(), Alarm::At(5));
}

#[test]
fn scheduler_refuses_more_tasks_than_it_can_number() {
    let fits: Vec<TaskSpec> = (0..256).map(|_| task(1, 0)).collect();
    assert!(Scheduler::<u32>::new(fits).is_ok());
    let too_many: Vec<TaskSpec> = (0..257).map(|_| task(1, 0)).collect();
    match Scheduler::<u32>::new(too_many) {
        Err(error) => assert_eq!(error, ConfigError::TooManyTasks { tasks: 257 }),
        Ok(_) => panic!("257 tasks were accepted"),
    }
}

#[test]
fn scheduler_refuses_more_slots_than_a_ready_queue_holds() {
    assert!(Scheduler::<u32>::new(vec![task(2, 200), task(2, 55)]).is_ok());
    assert!(Scheduler::<u32>::new(vec![task(2, 200), task(3, 200)]).is_ok());
    match Scheduler::<u32>::new(vec![task(2, 200), task(1, 9), task(2, 56)]) {
        Err(error) => assert_eq!(error, ConfigError::TooManySlots { level: 2, slots: 256 }),
        Ok(_) => panic!("256 slots at one priority were accepted"),
    }
}

#[test]
fn tasks_of_one_priority_share_a_ready_queue_that_holds_all_their_slots() {
    let mut s = scheduler(vec![task(2, 200), task(2, 55)]);
    for i in 0..200 {
        assert_eq!(s.spawn(0, i), Ok(()));
    }
    for i in 0..55 {
        assert_eq!(s.spawn(1, 1_000 + i), Ok(()));
    }
    assert_eq!(s.spawn(0, 1), Err(1));
    assert_eq!(s.spawn(1, 1), Err(1));
    assert_eq!(s.pending(2), 255);
    for i in 0..200 {
        assert_eq!(s.dispatch(), Some((0, i)));
    }
    for i in 0..55 {
        assert_eq!(s.dispatch(), Some((1, 1_000 + i)));
    }
    assert_eq!(s.dispatch(), None);
}

#[test]
fn scheduler_agrees_with_a_plain_model_over_a_long_run() {
    let specs = vec![task(1, 3), task(2, 2), task(2, 4), task(5, 1)];
    let mut s = scheduler(specs.clone());
    let mut free: Vec<usize> = specs.iter().map(|spec| usize::from(spec.capacity)).collect();
    let mut ready: Vec<Vec<(u8, u32)>> = vec![Vec::new(); 256];
    let mut timer: Vec<(u64, u8, u32)> = Vec::new();
    let mut seed = 0x2545_f491u32;
    let mut now = 0u64;
    let mut delivered = 0u32;
    for step in 0..20_000u32 {
        seed ^= seed << 13;
        seed ^= seed >> 17;
        seed ^= seed << 5;
        let choice = seed % 4;
        let task = ((seed >> 8) % 5) as u8;
        match choice {
            0 => {
                let known = usize::from(task) < specs.len();
                let expected = known && free[usize::from(task)] > 0;
                assert_eq!(s.spawn(task, step).is_ok(), expected);
                if expected {
                    free[usize::from(task)] -= 1;
                    ready[usize::from(specs[usize::from(task)].priority)].push((task, step));
                }
            }
            1 => {
                let instant = now + u64::from((seed >> 16) % 40);
                let known = usize::from(task) < specs.len();
                let expected = known && free[usize::from(task)] > 0;
                assert_eq!(s.schedule(task, instant, step).is_ok(), expected);
                if expected {
                    free[usize::from(task)] -= 1;
                    let position = timer.iter().take_while(|entry| entry.0 <= instant).count();
                    timer.insert(position, (instant, task, step));
                }
            }
            2 => {
                now += u64::from((seed >> 16) % 25);
                let due = timer.iter().take_while(|entry| entry.0 <= now).count();
                for (_, task, payload) in timer.drain(..due) {
                    ready[usize::from(specs[usize::from(task)].priority)].push((task, payload));
                }
                let expected = match timer.first() {
                    Some(entry) => Alarm::At(entry.0),
                    None => Alarm::Off,
                };
                assert_eq!(s.on_timer(now), expected);
            }
            _ => {
                let expected = match ready.iter().rposition(|queue| !queue.is_empty()) {
                    Some(level) => Some(ready[level].remove(0)),
                    None => None,
                };
                assert_eq!(s.dispatch(), expected);
                if let Some((task, _)) = expected {
                    free[usize::from(task)] += 1;
                    delivered += 1;
                }
            }
        }
        assert_eq!(s.waiting(), timer.len());
    }
    assert!(delivered > 1_000);
}

#[test]
fn lock_keeps_tasks_at_or_below_the_ceiling_from_starting() {
    let mut s = scheduler(vec![task(1, 2), task(2, 2), task(3, 2), task(4, 2)]);
    let mut running = Priority::new(1);
    let mut shared = 0u32;
    assert_eq!(s.spawn(1, 20), Ok(()));
    assert_eq!(s.spawn(2, 30), Ok(()));
    assert_eq!(s.busiest_level(), Some(3));
    let seen = running.lock(3, &mut shared, |p: &mut Priority, x: &mut u32| {
        *x += 1;
        let first = s.preempt(p);
        assert_eq!(s.spawn(3, 40), Ok(()));
        let second = s.preempt(p);
        let third = s.preempt(p);
        (first, second, third)
    });
    assert_eq!(seen, (None, Some((3, 40)), None));
    assert_eq!(shared, 1);
    assert_eq!(s.preempt(&running), Some((2, 30)));
    assert_eq!(s.preempt(&running), Some((1, 20)));
    assert_eq!(s.spawn(0, 10), Ok(()));
    assert_eq!(s.preempt(&running), None);
    assert_eq!(s.busiest_level(), Some(1));
    assert_eq!(s.dispatch(), Some((0, 10)));
    assert_eq!(s.busiest_level(), None);
}
