use rtfm_sched::dispatch::Dispatch;
use rtfm_sched::dispatch::Dispatcher;
use rtfm_sched::dispatch::Ready;
use rtfm_sched::slots::SlotPool;
use rtfm_sched::task::alarm_of;
use rtfm_sched::task::on_timer;
use rtfm_sched::task::schedule;
use rtfm_sched::task::spawn;
use rtfm_sched::task::tick;
use rtfm_sched::task::Alarm;
use rtfm_sched::task::Tick;
use rtfm_sched::timer::NotReady;
use rtfm_sched::timer::TimerQueue;

fn entry(instant: u64, task: u8, slot: u8) -> NotReady {
    NotReady { instant, task, slot }
}

#[test]
fn timer_queue_hands_out_the_earliest_first() {
    let mut tq = TimerQueue::new(8);
    for (i, instant) in [50u64, 10, 40, 20, 30].iter().enumerate() {
        assert_eq!(tq.try_insert(entry(*instant, 0, i as u8)), Ok(()));
    }
    assert_eq!(tq.len(), 5);
    assert_eq!(tq.next_instant(), Some(10));
    let mut out = Vec::new();
    while let Some(e) = tq.pop_due(u64::MAX) {
        out.push(e.instant);
    }
    assert_eq!(out, vec![10, 20, 30, 40, 50]);
    assert_eq!(tq.next_instant(), None);
}

#[test]
fn timer_queue_is_first_in_first_out_among_equal_instants() {
    let mut tq = TimerQueue::new(8);
    assert_eq!(tq.try_insert(entry(20, 1, 0)), Ok(()));
    assert_eq!(tq.try_insert(entry(10, 2, 0)), Ok(()));
    assert_eq!(tq.try_insert(entry(20, 3, 0)), Ok(()));
    assert_eq!(tq.try_insert(entry(10, 4, 0)), Ok(()));
    assert_eq!(tq.try_insert(entry(20, 5, 0)), Ok(()));
    assert_eq!(tq.try_insert(entry(10, 6, 0)), Ok(()));
    let mut out = Vec::new();
    while let Some(e) = tq.pop_due(100) {
        out.push((e.instant, e.task));
    }
    assert_eq!(out, vec![(10, 2), (10, 4), (10, 6), (20, 1), (20, 3), (20, 5)]);
}

#[test]
fn timer_queue_holds_back_what_is_not_due() {
    let mut tq = TimerQueue::new(4);
    assert_eq!(tq.try_insert(entry(100, 0, 0)), Ok(()));
    assert_eq!(tq.try_insert(entry(200, 0, 1)), Ok(()));
    assert_eq!(tq.pop_due(0), None);
    assert_eq!(tq.pop_due(99), None);
    assert_eq!(tq.len(), 2);
    assert_eq!(tq.pop_due(100), Some(entry(100, 0, 0)));
    assert_eq!(tq.pop_due(100), None);
    assert_eq!(tq.pop_due(150), None);
    assert_eq!(tq.pop_due(1_000), Some(entry(200, 0, 1)));
    assert_eq!(tq.pop_due(1_000), None);
    assert_eq!(tq.len(), 0);
}

#[test]
fn full_timer_queue_hands_the_entry_back() {
    let mut tq = TimerQueue::new(2);
    assert!(!tq.is_full());
    assert_eq!(tq.try_insert(entry(5, 0, 0)), Ok(()));
    assert_eq!(tq.try_insert(entry(3, 0, 1)), Ok(()));
    assert!(tq.is_full());
    assert_eq!(tq.try_insert(entry(1, 0, 2)), Err(entry(1, 0, 2)));
    assert_eq!(tq.len(), 2);
    assert_eq!(tq.next_instant(), Some(3));
    let mut none = TimerQueue::new(0);
    assert!(none.is_full());
    assert_eq!(none.try_insert(entry(1, 0, 0)), Err(entry(1, 0, 0)));
}

#[test]
fn tick_moves_what_is_due_and_then_sets_the_timer() {
    let mut tq = TimerQueue::new(4);
    assert_eq!(tick(&mut tq, 10), Tick::Rest(Alarm::Off));
    assert_eq!(tq.try_insert(entry(30, 1, 0)), Ok(()));
    assert_eq!(tq.try_insert(entry(10, 2, 1)), Ok(()));
    assert_eq!(tick(&mut tq, 5), Tick::Rest(Alarm::At(10)));
    assert_eq!(tick(&mut tq, 10), Tick::Due(entry(10, 2, 1)));
    assert_eq!(tick(&mut tq, 10), Tick::Rest(Alarm::At(30)));
    assert_eq!(alarm_of(&tq), Alarm::At(30));
    assert_eq!(tick(&mut tq, 31), Tick::Due(entry(30, 1, 0)));
    assert_eq!(tick(&mut tq, 31), Tick::Rest(Alarm::Off));
    assert_eq!(alarm_of(&tq), Alarm::Off);
}

#[test]
fn scheduled_task_waits_for_its_instant() {
    let mut pool: SlotPool<u32> = SlotPool::new(2);
    let mut tq = TimerQueue::new(2);
    let mut dispatcher = Dispatcher::new(1, 2);
    assert_eq!(schedule(&mut pool, &mut tq, 4, 100, 7), Ok(()));
    assert_eq!(on_timer(&mut tq, &mut dispatcher, 0, 50), Alarm::At(100));
    assert_eq!(dispatcher.next(), Dispatch::Idle);
    assert_eq!(on_timer(&mut tq, &mut dispatcher, 0, 99), Alarm::At(100));
    assert_eq!(dispatcher.next(), Dispatch::Idle);
    assert_eq!(on_timer(&mut tq, &mut dispatcher, 0, 100), Alarm::Off);
    let run = dispatcher.next();
    assert_eq!(run, Dispatch::Run(Ready { task: 4, slot: 0 }));
    assert_eq!(pool.release(0), Some(7));
    assert_eq!(dispatcher.next(), Dispatch::Idle);
    assert_eq!(tq.len(), 0);
}

#[test]
fn task_scheduled_for_a_past_instant_runs_at_the_next_interrupt() {
    let mut pool: SlotPool<u32> = SlotPool::new(2);
    let mut tq = TimerQueue::new(2);
    let mut dispatcher = Dispatcher::new(1, 2);
    assert_eq!(schedule(&mut pool, &mut tq, 1, 10, 8), Ok(()));
    assert_eq!(on_timer(&mut tq, &mut dispatcher, 0, 50), Alarm::Off);
    assert_eq!(dispatcher.next(), Dispatch::Run(Ready { task: 1, slot: 0 }));
    assert_eq!(pool.release(0), Some(8));
}

#[test]
fn schedule_fails_as_spawn_does_when_the_slots_run_out() {
    let mut pool: SlotPool<u32> = SlotPool::new(2);
    let mut tq = TimerQueue::new(8);
    assert_eq!(schedule(&mut pool, &mut tq, 0, 30, 1), Ok(()));
    assert_eq!(schedule(&mut pool, &mut tq, 0, 20, 2), Ok(()));
    assert_eq!(schedule(&mut pool, &mut tq, 0, 10, 3), Err(3));
    assert_eq!(tq.len(), 2);
    assert_eq!(pool.available(), 0);
    assert_eq!(tq.pop_due(100), Some(entry(20, 0, 1)));
    assert_eq!(pool.release(1), Some(2));
    assert_eq!(schedule(&mut pool, &mut tq, 0, 10, 3), Ok(()));
    assert_eq!(tq.pop_due(100), Some(entry(10, 0, 1)));
    assert_eq!(tq.pop_due(100), Some(entry(30, 0, 0)));
}

#[test]
fn schedule_fails_when_the_timer_queue_is_full() {
    let mut pool: SlotPool<u32> = SlotPool::new(4);
    let mut tq = TimerQueue::new(1);
    assert_eq!(schedule(&mut pool, &mut tq, 0, 30, 1), Ok(()));
    assert_eq!(schedule(&mut pool, &mut tq, 0, 20, 2), Err(2));
    assert_eq!(pool.available(), 3);
    assert_eq!(tq.len(), 1);
}

#[test]
fn timer_interrupt_moves_every_due_entry_in_order() {
    let mut pool: SlotPool<u32> = SlotPool::new(4);
    let mut tq = TimerQueue::new(4);
    let mut dispatcher = Dispatcher::new(2, 4);
    assert_eq!(schedule(&mut pool, &mut tq, 9, 30, 300), Ok(()));
    assert_eq!(schedule(&mut pool, &mut tq, 9, 10, 100), Ok(()));
    assert_eq!(schedule(&mut pool, &mut tq, 9, 40, 400), Ok(()));
    assert_eq!(schedule(&mut pool, &mut tq, 9, 10, 101), Ok(()));
    assert_eq!(on_timer(&mut tq, &mut dispatcher, 1, 30), Alarm::At(40));
    let mut seen = Vec::new();
    while let Dispatch::Run(ready) = dispatcher.next() {
        assert_eq!(ready.task, 9);
        seen.push(pool.release(ready.slot).unwrap());
    }
    assert_eq!(seen, vec![100, 101, 300]);
    assert_eq!(tq.len(), 1);
    assert_eq!(on_timer(&mut tq, &mut dispatcher, 1, 40), Alarm::Off);
    assert_eq!(dispatcher.next(), Dispatch::Run(Ready { task: 9, slot: 2 }));
}

#[test]
fn timer_interrupt_leaves_what_the_ready_queue_cannot_take() {
    let mut pool: SlotPool<u32> = SlotPool::new(4);
    let mut tq = TimerQueue::new(4);
    let mut dispatcher = Dispatcher::new(1, 2);
    for (i, instant) in [10u64, 20, 30].iter().enumerate() {
        assert_eq!(schedule(&mut pool, &mut tq, 0, *instant, i as u32), Ok(()));
    }
    assert_eq!(on_timer(&mut tq, &mut dispatcher, 0, 100), Alarm::At(30));
    assert_eq!(tq.len(), 1);
    assert_eq!(dispatcher.next(), Dispatch::Run(Ready { task: 0, slot: 0 }));
    assert_eq!(on_timer(&mut tq, &mut dispatcher, 0, 100), Alarm::Off);
    assert_eq!(dispatcher.next(), Dispatch::Run(Ready { task: 0, slot: 1 }));
    assert_eq!(dispatcher.next(), Dispatch::Run(Ready { task: 0, slot: 2 }));
    assert_eq!(dispatcher.next(), Dispatch::Idle);
}

#[test]
fn timer_interrupt_for_an_unknown_sender_moves_nothing() {
    let mut pool: SlotPool<u32> = SlotPool::new(1);
    let mut tq = TimerQueue::new(1);
    let mut dispatcher = Dispatcher::new(1, 1);
    assert_eq!(schedule(&mut pool, &mut tq, 0, 10, 1), Ok(()));
    assert_eq!(on_timer(&mut tq, &mut dispatcher, 3, 100), Alarm::At(10));
    assert_eq!(tq.len(), 1);
    assert_eq!(dispatcher.next(), Dispatch::Idle);
}

#[test]
fn spawn_runs_the_task_once_with_its_payload() {
    let mut pool: SlotPool<u32> = SlotPool::new(2);
    let mut dispatcher = Dispatcher::new(1, 2);
    assert_eq!(spawn(&mut pool, &mut dispatcher, 0, 3, 7), Ok(()));
    assert_eq!(pool.available(), 1);
    match dispatcher.next() {
        Dispatch::Run(ready) => {
            assert_eq!(ready.task, 3);
            assert_eq!(pool.release(ready.slot), Some(7));
            assert_eq!(pool.release(ready.slot), None);
        }
        Dispatch::Idle => panic!("the task was spawned"),
    }
    assert_eq!(dispatcher.next(), Dispatch::Idle);
    assert_eq!(pool.available(), 2);
}

#[test]
fn spawn_succeeds_as_often_as_the_task_has_slots() {
    let capacity = 5u8;
    let mut pool: SlotPool<u32> = SlotPool::new(capacity);
    let mut dispatcher = Dispatcher::new(1, capacity);
    for i in 0..capacity as u32 {
        assert_eq!(spawn(&mut pool, &mut dispatcher, 0, 1, 100 + i), Ok(()));
    }
    assert_eq!(spawn(&mut pool, &mut dispatcher, 0, 1, 999), Err(999));
    for i in 0..capacity as u32 {
        match dispatcher.next() {
            Dispatch::Run(ready) => assert_eq!(pool.release(ready.slot), Some(100 + i)),
            Dispatch::Idle => panic!("an invocation is missing"),
        }
    }
    assert_eq!(dispatcher.next(), Dispatch::Idle);
    assert_eq!(spawn(&mut pool, &mut dispatcher, 0, 1, 999), Ok(()));
}

#[test]
fn spawn_fails_when_the_ready_queue_has_no_room() {
    let mut pool: SlotPool<u32> = SlotPool::new(4);
    let mut dispatcher = Dispatcher::new(1, 2);
    assert_eq!(spawn(&mut pool, &mut dispatcher, 0, 1, 1), Ok(()));
    assert_eq!(spawn(&mut pool, &mut dispatcher, 0, 1, 2), Ok(()));
    assert_eq!(spawn(&mut pool, &mut dispatcher, 0, 1, 3), Err(3));
    assert_eq!(pool.available(), 2);
    assert_eq!(spawn(&mut pool, &mut dispatcher, 1, 1, 4), Err(4));
    assert_eq!(pool.available(), 2);
}

#[test]
fn dispatcher_drains_the_senders_in_order() {
    let mut dispatcher = Dispatcher::new(3, 4);
    assert_eq!(dispatcher.senders(), 3);
    assert_eq!(dispatcher.push(2, Ready { task: 1, slot: 0 }), Ok(()));
    assert_eq!(dispatcher.push(1, Ready { task: 2, slot: 0 }), Ok(()));
    assert_eq!(dispatcher.push(2, Ready { task: 1, slot: 1 }), Ok(()));
    assert_eq!(dispatcher.push(0, Ready { task: 3, slot: 0 }), Ok(()));
    assert_eq!(dispatcher.push(1, Ready { task: 2, slot: 1 }), Ok(()));
    assert_eq!(dispatcher.push(3, Ready { task: 4, slot: 0 }), Err(Ready { task: 4, slot: 0 }));
    let mut seen = Vec::new();
    while let Dispatch::Run(ready) = dispatcher.next() {
        seen.push((ready.task, ready.slot));
    }
    assert_eq!(seen, vec![(3, 0), (2, 0), (2, 1), (1, 0), (1, 1)]);
    assert_eq!(dispatcher.next(), Dispatch::Idle);
}

#[test]
fn dispatcher_serves_an_earlier_sender_that_got_work_meanwhile() {
    let mut dispatcher = Dispatcher::new(2, 2);
    assert_eq!(dispatcher.push(1, Ready { task: 1, slot: 0 }), Ok(()));
    assert_eq!(dispatcher.push(1, Ready { task: 1, slot: 1 }), Ok(()));
    assert_eq!(dispatcher.next(), Dispatch::Run(Ready { task: 1, slot: 0 }));
    assert_eq!(dispatcher.push(0, Ready { task: 0, slot: 0 }), Ok(()));
    assert_eq!(dispatcher.next(), Dispatch::Run(Ready { task: 0, slot: 0 }));
    assert_eq!(dispatcher.next(), Dispatch::Run(Ready { task: 1, slot: 1 }));
    assert_eq!(dispatcher.next(), Dispatch::Idle);
    assert!(dispatcher.has_room(0));
    assert!(!dispatcher.has_room(2));
}

#[test]
fn dispatcher_without_senders_is_idle() {
    let mut dispatcher = Dispatcher::new(0, 4);
    assert_eq!(dispatcher.next(), Dispatch::Idle);
    assert_eq!(dispatcher.push(0, Ready { task: 0, slot: 0 }), Err(Ready { task: 0, slot: 0 }));
}
