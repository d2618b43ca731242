use polling_runtime::future::{poll_fn, Chain, FromFn, Future, PollFunction, WithData};
use polling_runtime::scheduler::{Scheduler, Turn, Waker};
use std::marker::PhantomData;

fn waker_of(task: u32) -> Waker<u32> {
    let mut scheduler = Scheduler::default();
    scheduler.spawn(task);
    match scheduler.run() {
        Turn::Poll { waker, .. } => waker,
        Turn::Wait => panic!("nothing to run"),
    }
}

fn waker() -> Waker<u32> {
    waker_of(1)
}

/// Pending as many times as it says, then ready with the number of its polls.
struct Countdown {
    pending: u8,
    polls: u8,
}

impl Future<u32> for Countdown {
    type Output = u8;

    fn poll(&mut self, _waker: Waker<u32>) -> Option<u8> {
        self.polls += 1;
        if self.pending == 0 {
            return Some(self.polls);
        }
        self.pending -= 1;
        None
    }
}

fn countdown(pending: u8) -> Countdown {
    Countdown { pending, polls: 0 }
}

#[test]
fn chain_polls_the_second_at_once() {
    let mut chain = countdown(0).chain(|polls| {
        assert_eq!(polls, 1);
        countdown(0)
    });
    assert_eq!(chain.poll(waker()), Some(1));
    assert!(matches!(chain, Chain::Second { .. }));
}

#[test]
fn chain_waits_for_the_first() {
    let mut chain = countdown(2).chain(|_| countdown(1));
    assert_eq!(chain.poll(waker()), None);
    assert!(matches!(chain, Chain::First { transition: Some(_), .. }));
    assert_eq!(chain.poll(waker()), None);
    assert!(matches!(chain, Chain::First { .. }));
    assert_eq!(chain.poll(waker()), None);
    assert!(matches!(chain, Chain::Second { .. }));
    assert_eq!(chain.poll(waker()), Some(2));
}

#[test]
fn chain_hands_over_once() {
    let mut transitions = 0;
    let mut chain = countdown(0).chain(|_| {
        transitions += 1;
        countdown(0)
    });
    assert_eq!(chain.poll(waker()), Some(1));
    assert_eq!(chain.poll(waker()), Some(2));
    assert_eq!(chain.poll(waker()), Some(3));
    drop(chain);
    assert_eq!(transitions, 1);
}

#[test]
fn chain_hands_its_waker_to_both() {
    let mut scheduler = Scheduler::default();
    scheduler.spawn(42u32);
    let Turn::Poll { waker, .. } = scheduler.run() else {
        panic!("nothing to run");
    };
    let mut seen = Vec::new();
    poll_fn(|waker: Waker<u32>| Some(waker))
        .chain(|first| poll_fn(move |waker| Some((first.clone(), waker))))
        .poll(waker)
        .into_iter()
        .for_each(|(first, second)| {
            first.wake(&mut scheduler);
            second.wake(&mut scheduler);
        });
    while let Turn::Poll { task, .. } = scheduler.run() {
        seen.push(*task);
    }
    assert_eq!(seen, vec![42, 42]);
}

#[test]
fn function_future_calls_its_function() {
    let mut calls = 0;
    let mut future = poll_fn(|_: Waker<u32>| {
        calls += 1;
        if calls < 3 {
            None
        } else {
            Some(calls)
        }
    });
    assert_eq!(future.poll(waker()), None);
    assert_eq!(future.poll(waker()), None);
    assert_eq!(future.poll(waker()), Some(3));
}

#[test]
fn data_stays_with_its_future() {
    let mut future = WithData::new(2u8, |pending| countdown(*pending));
    assert_eq!(future.poll(waker()), None);
    assert_eq!(future.poll(waker()), None);
    assert_eq!(future.poll(waker()), Some(3));
    assert_eq!(future.data, 2);
}

#[test]
fn chaining_is_associative() {
    for (a, b, c) in [(0, 0, 0), (1, 0, 2), (2, 3, 0), (0, 1, 1)] {
        let mut left = countdown(a).chain(move |_| countdown(b)).chain(move |_| countdown(c));
        let mut right =
            countdown(a).chain(move |_| countdown(b).chain(move |_| countdown(c)));
        for _ in 0..10 {
            assert_eq!(left.poll(waker()), right.poll(waker()));
        }
    }
}

fn task_of(waker: &Waker<u32>) -> u32 {
    let mut scheduler = Scheduler::default();
    waker.wake(&mut scheduler);
    *scheduler.runnable[0]
}

#[test]
fn each_poll_is_one_call_with_its_waker() {
    let mut called_with = Vec::new();
    let mut future = poll_fn(|waker: Waker<u32>| {
        called_with.push(task_of(&waker));
        if called_with.len() < 3 {
            None
        } else {
            Some(called_with.len())
        }
    });
    let outs: Vec<Option<usize>> = [4, 5, 6, 7].map(|task| future.poll(waker_of(task))).to_vec();
    assert_eq!(outs, vec![None, None, Some(3), Some(4)]);
    drop(future);
    assert_eq!(called_with, vec![4, 5, 6, 7]);
}

/// Adds up the tasks of the wakers that it is called with.
struct Sum(u32);

impl PollFunction<u32, u32> for Sum {
    fn call_with(&mut self, waker: Waker<u32>) -> Option<u32> {
        self.0 += task_of(&waker);
        Some(self.0)
    }
}

#[test]
fn polls_of_a_function_with_state_are_its_calls() {
    let mut future = FromFn {
        f: Sum(0),
        output: PhantomData,
    };
    let outs: Vec<Option<u32>> = [1, 20, 300].map(|task| future.poll(waker_of(task))).to_vec();
    assert_eq!(outs, vec![Some(1), Some(21), Some(321)]);
    assert_eq!(future.f.0, 321);
}

#[test]
fn groupings_agree() {
    for (a, b, c) in [(0, 0, 0), (2, 0, 1), (0, 3, 0), (1, 1, 1)] {
        let mut left = countdown(a).chain(move |_| countdown(b)).chain(move |_| countdown(c));
        let mut right =
            countdown(a).chain(move |_| countdown(b).chain(move |_| countdown(c)));
        for _ in 0..a + b + c {
            assert_eq!(left.poll(waker()), None);
            assert_eq!(right.poll(waker()), None);
        }
        assert_eq!(left.poll(waker()), Some(c + 1));
        assert_eq!(right.poll(waker()), Some(c + 1));
    }
}
