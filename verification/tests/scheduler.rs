use polling_runtime::scheduler::{Scheduler, Turn, Waker};
use std::sync::Arc;

fn poll<T>(scheduler: &mut Scheduler<T>) -> (Arc<T>, Waker<T>) {
    match scheduler.run() {
        Turn::Poll { task, waker } => (task, waker),
        Turn::Wait => panic!("no task is runnable"),
    }
}

#[test]
fn tasks_run_first_come_first_served() {
    let mut scheduler = Scheduler::default();
    scheduler.spawn('a');
    scheduler.spawn('b');
    scheduler.spawn('c');
    assert_eq!(*poll(&mut scheduler).0, 'a');
    scheduler.spawn('d');
    let rest: Vec<char> = (0..3).map(|_| *poll(&mut scheduler).0).collect();
    assert_eq!(rest, vec!['b', 'c', 'd']);
}

#[test]
fn empty_queue_waits() {
    let mut scheduler: Scheduler<u8> = Scheduler::default();
    assert!(matches!(scheduler.run(), Turn::Wait));
    scheduler.spawn(1);
    poll(&mut scheduler);
    assert!(matches!(scheduler.run(), Turn::Wait));
}

#[test]
fn waker_requeues_its_own_task_at_the_back() {
    let mut scheduler = Scheduler::default();
    scheduler.spawn(1u8);
    scheduler.spawn(2u8);
    let (first, waker) = poll(&mut scheduler);
    waker.wake(&mut scheduler);
    assert_eq!(*poll(&mut scheduler).0, 2);
    let (again, _) = poll(&mut scheduler);
    assert!(Arc::ptr_eq(&first, &again));
}

#[test]
fn waking_twice_queues_twice() {
    let mut scheduler = Scheduler::default();
    scheduler.spawn(7u8);
    let (_, waker) = poll(&mut scheduler);
    waker.wake(&mut scheduler);
    waker.clone().wake(&mut scheduler);
    assert_eq!(scheduler.runnable.len(), 2);
    assert!(scheduler.runnable.iter().all(|task| **task == 7));
}

#[test]
fn tasks_are_polled_as_often_as_queued() {
    let mut scheduler = Scheduler::default();
    scheduler.spawn('a');
    scheduler.spawn('b');
    let mut polled = Vec::new();
    let mut waits = 0;
    let mut asleep = None;
    for turn in 0..6 {
        match scheduler.run() {
            Turn::Poll { task, waker } => {
                polled.push(*task);
                if turn == 0 {
                    waker.wake(&mut scheduler);
                    waker.wake(&mut scheduler);
                }
                asleep = Some(waker);
            }
            Turn::Wait => {
                waits += 1;
                asleep.take().unwrap().wake(&mut scheduler);
                scheduler.spawn('c');
            }
        }
    }
    assert_eq!(polled, vec!['a', 'b', 'a', 'a', 'a']);
    assert_eq!(waits, 1);
    let left: Vec<char> = scheduler.runnable.iter().map(|task| **task).collect();
    assert_eq!(left, vec!['c']);
}

#[test]
fn queued_task_moves_up_by_one_each_turn() {
    let mut scheduler = Scheduler::default();
    scheduler.spawn(10u8);
    scheduler.spawn(20);
    scheduler.spawn(30);
    for ahead in [2, 1] {
        assert_eq!(scheduler.runnable.iter().position(|task| **task == 30), Some(ahead));
        let (_, waker) = poll(&mut scheduler);
        waker.wake(&mut scheduler);
    }
    assert_eq!(*poll(&mut scheduler).0, 30);
}
