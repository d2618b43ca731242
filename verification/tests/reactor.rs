use polling_runtime::exchange::Outcome;
use polling_runtime::reactor::{
    registration, Control, Event, Reactor, EVENT_CAPACITY, WAIT_FOREVER,
};
use polling_runtime::scheduler::{Scheduler, Turn, Waker};

fn wakers(count: u32) -> (Scheduler<u32>, Vec<Waker<u32>>) {
    let mut scheduler = Scheduler::default();
    for task in 0..count {
        scheduler.spawn(task);
    }
    let mut wakers = Vec::new();
    while let Turn::Poll { waker, .. } = scheduler.run() {
        wakers.push(waker);
    }
    (scheduler, wakers)
}

fn report(fd: i32) -> Event {
    Event { events: 1, data: fd as u64 }
}

fn queued(scheduler: &Scheduler<u32>) -> Vec<u32> {
    scheduler.runnable.iter().map(|task| **task).collect()
}

#[test]
fn new_reactor_watches_nothing() {
    let reactor: Reactor<u32> = Reactor::new(3);
    assert_eq!(reactor.epoll, 3);
    assert!(reactor.tasks.is_empty());
    assert_eq!(EVENT_CAPACITY, 1024);
    assert_eq!(WAIT_FOREVER, -1);
}

#[test]
fn registration_asks_for_read_and_write_interest() {
    let event = Event { events: 0x5, data: 9 };
    assert_eq!(registration(9), Control::Add { fd: 9, event });
    let flags = epoll::Events::EPOLLIN | epoll::Events::EPOLLOUT;
    assert_eq!(event.events, flags.bits());
}

#[test]
fn remove_undoes_add() {
    let (mut scheduler, wakers) = wakers(1);
    let mut reactor = Reactor::new(3);
    assert_eq!(reactor.remove(9), None);
    assert!(reactor.add(9, wakers[0].clone(), Outcome::Done));
    assert_eq!(reactor.remove(9), Some(Control::Delete { fd: 9 }));
    assert_eq!(reactor.remove(9), None);
    reactor.wait(&[report(9)], &mut scheduler);
    assert!(queued(&scheduler).is_empty());
}

#[test]
fn reports_wake_their_tasks_in_order() {
    let (mut scheduler, wakers) = wakers(3);
    let mut reactor = Reactor::new(3);
    assert!(reactor.add(10, wakers[0].clone(), Outcome::Done));
    assert!(reactor.add(11, wakers[1].clone(), Outcome::Done));
    assert!(reactor.add(12, wakers[2].clone(), Outcome::Done));
    scheduler.spawn(100);
    reactor.wait(&[report(12), report(99), report(10), report(12)], &mut scheduler);
    assert_eq!(queued(&scheduler), vec![100, 2, 0, 2]);
}

#[test]
fn two_batches_wake_like_one() {
    let (mut one, wakers) = wakers(2);
    let mut two = Scheduler::default();
    let mut reactor = Reactor::new(3);
    assert!(reactor.add(1, wakers[0].clone(), Outcome::Done));
    assert!(reactor.add(2, wakers[1].clone(), Outcome::Done));
    reactor.wait(&[report(2), report(1), report(5), report(2)], &mut one);
    reactor.wait(&[report(2), report(1)], &mut two);
    reactor.wait(&[report(5), report(2)], &mut two);
    assert_eq!(queued(&one), queued(&two));
    assert_eq!(queued(&one), vec![1, 0, 1]);
}

#[test]
fn failed_registration_keeps_the_waker() {
    let (mut scheduler, wakers) = wakers(2);
    let mut reactor = Reactor::new(3);
    assert!(reactor.add(4, wakers[0].clone(), Outcome::Done));
    assert!(!reactor.add(4, wakers[1].clone(), Outcome::Failed));
    assert!(!reactor.add(5, wakers[1].clone(), Outcome::Failed));
    assert!(!reactor.add(5, wakers[1].clone(), Outcome::WouldBlock));
    assert_eq!(reactor.tasks.len(), 1);
    reactor.wait(&[report(4), report(5)], &mut scheduler);
    assert_eq!(queued(&scheduler), vec![0]);
}

#[test]
fn descriptors_survive_the_round_trip() {
    let (mut scheduler, wakers) = wakers(2);
    let mut reactor = Reactor::new(3);
    for fd in [-1, i32::MAX] {
        let Control::Add { event, .. } = registration(fd) else {
            panic!("not an addition");
        };
        assert!(reactor.add(fd, wakers[0].clone(), Outcome::Done));
        assert_eq!(event.data, fd as u64);
        reactor.wait(&[event], &mut scheduler);
    }
    assert_eq!(queued(&scheduler), vec![0, 0]);
    // Only the low half of the data is looked at.
    reactor.wait(&[Event { events: 0, data: 0x1_7fff_ffff }], &mut scheduler);
    assert_eq!(queued(&scheduler), vec![0, 0, 0]);
}

#[test]
fn ready_task_is_polled_behind_the_runnable_ones() {
    let (mut scheduler, wakers) = wakers(1);
    let mut reactor = Reactor::new(3);
    assert!(reactor.add(8, wakers[0].clone(), Outcome::Done));
    scheduler.spawn(50);
    reactor.wait(&[report(8)], &mut scheduler);
    let mut order = Vec::new();
    while let Turn::Poll { task, .. } = scheduler.run() {
        order.push(*task);
    }
    assert_eq!(order, vec![50, 0]);
}
