//! Which descriptors are watched, and which task each of them wakes.

use crate::exchange::Outcome;
use crate::scheduler::{law_first_come_first_served, polled, Scheduler, Waker};
use std::collections::HashMap;
use std::sync::Arc;
use vstd::prelude::*;

verus! {

broadcast use vstd::std_specs::hash::group_hash_axioms;

/// How many events one wait takes at most.
pub const EVENT_CAPACITY: usize = 1024;

/// The timeout of a wait that lasts until an event arrives.
pub const WAIT_FOREVER: i32 = -1;

/// Interest bit: the descriptor is available for read operations.
pub open spec fn readable() -> u32 {
    0x001
}

/// Interest bit: the descriptor is available for write operations.
pub open spec fn writable() -> u32 {
    0x004
}

/// What the kernel is asked to watch for, or what it has reported.
#[derive(Clone, Copy, PartialEq, Eq, Structural, Debug)]
pub struct Event {
    /// Bit set of conditions.
    pub events: u32,
    /// Handed back unchanged with each report.
    pub data: u64,
}

/// Calls `epoll::Event::new`, whose source copies the bits of the flags and the data
/// into the event. `Events::from_bits_retain` keeps every bit.
#[verifier::external_body]
fn event_new(events: u32, data: u64) -> (event: Event)
    ensures
        event.events == events,
        event.data == data,
{
    let event = epoll::Event::new(epoll::Events::from_bits_retain(events), data);
    Event { events: event.events, data: event.data }
}

/// Calls `epoll::Events::bits` on the flag `EPOLLIN`, which is the bit 0x001 of Linux.
#[verifier::external_body]
fn epollin() -> (bits: u32)
    ensures
        bits == readable(),
{
    epoll::Events::EPOLLIN.bits()
}

/// Calls `epoll::Events::bits` on the flag `EPOLLOUT`, which is the bit 0x004 of Linux.
#[verifier::external_body]
fn epollout() -> (bits: u32)
    ensures
        bits == writable(),
{
    epoll::Events::EPOLLOUT.bits()
}

/// The data under which a descriptor is registered.
pub open spec fn data_of(fd: i32) -> u64 {
    fd as u64
}

/// The descriptor that the data of a report stands for.
pub open spec fn fd_of(data: u64) -> i32 {
    data as i32
}

/// A change of the kernel's interest list.
#[derive(Clone, Copy, PartialEq, Eq, Structural, Debug)]
pub enum Control {
    /// Start to watch `fd` for `event`.
    Add { fd: i32, event: Event },
    /// Stop to watch `fd`.
    Delete { fd: i32 },
}

/// The interest list after a change, if the kernel has made it.
pub open spec fn interest_after(
    interest: Set<i32>,
    change: Option<Control>,
    outcome: Outcome,
) -> Set<i32> {
    match change {
        Some(Control::Add { fd, .. }) if outcome is Done => interest.insert(fd),
        Some(Control::Delete { fd }) if outcome is Done => interest.remove(fd),
        _ => interest,
    }
}

/// The change that has `fd` watched with read and write interest.
pub open spec fn watching(fd: i32) -> Control {
    Control::Add { fd, event: Event { events: readable() | writable(), data: data_of(fd) } }
}

/// The change that has `fd` watched with read and write interest.
pub fn registration(fd: i32) -> (change: Control)
    ensures
        change == watching(fd),
{
    Control::Add { fd, event: event_new(epollin() | epollout(), fd as u64) }
}

/// The tasks after `outcome` has come of a registration.
pub open spec fn tasks_after<T>(
    tasks: Map<i32, Waker<T>>,
    fd: i32,
    waker: Waker<T>,
    outcome: Outcome,
) -> Map<i32, Waker<T>> {
    if outcome is Done {
        tasks.insert(fd, waker)
    } else {
        tasks
    }
}

/// The tasks after `fd` has been removed.
pub open spec fn tasks_without<T>(tasks: Map<i32, Waker<T>>, fd: i32) -> Map<i32, Waker<T>> {
    tasks.remove(fd)
}

/// The change that there is to make when `fd` is removed.
pub open spec fn unwatching<T>(tasks: Map<i32, Waker<T>>, fd: i32) -> Option<Control> {
    if tasks.contains_key(fd) {
        Some(Control::Delete { fd })
    } else {
        None
    }
}

/// The tasks that a batch of reports wakes: for each report, in order, the task
/// registered for its descriptor, if there is one.
pub open spec fn woken<T>(tasks: Map<i32, Waker<T>>, events: Seq<Event>) -> Seq<Arc<T>>
    decreases events.len(),
{
    if events.len() == 0 {
        Seq::empty()
    } else {
        let before = woken(tasks, events.drop_last());
        let fd = fd_of(events.last().data);
        if tasks.contains_key(fd) {
            before.push(tasks[fd].task())
        } else {
            before
        }
    }
}

/// Turns reports of the kernel into runnable tasks.
pub struct Reactor<T> {
    /// Descriptor of the epoll instance.
    pub epoll: i32,
    /// The waker to call when a descriptor becomes ready.
    pub tasks: HashMap<i32, Waker<T>>,
}

impl<T> Reactor<T> {
    /// Creates a new reactor on an epoll instance that watches nothing yet.
    pub fn new(epoll: i32) -> (res: Reactor<T>)
        ensures
            res.epoll == epoll,
            res.tasks@ == Map::<i32, Waker<T>>::empty(),
    {
        Reactor { epoll, tasks: HashMap::new() }
    }

    /// Adds a file descriptor, once the kernel has been asked to make the change that
    /// `registration` gives: `outcome` is what came of it. If it succeeded, `waker` will
    /// be called when the descriptor becomes ready. If not, nothing changes. The
    /// result tells which it was.
    pub fn add(&mut self, fd: i32, waker: Waker<T>, outcome: Outcome) -> (added: bool)
        ensures
            final(self).epoll == old(self).epoll,
            final(self).tasks@ == tasks_after(old(self).tasks@, fd, waker, outcome),
            added == (outcome is Done),
    {
        match outcome {
            Outcome::Done => {
                self.tasks.insert(fd, waker);
                true
            },
            Outcome::WouldBlock | Outcome::Failed => false,
        }
    }

    /// Removes the file descriptor from epoll. It will no longer receive any
    /// notifications. There is a change for the epoll instance exactly if the descriptor
    /// was registered.
    pub fn remove(&mut self, fd: i32) -> (change: Option<Control>)
        ensures
            final(self).epoll == old(self).epoll,
            final(self).tasks@ == tasks_without(old(self).tasks@, fd),
            change == unwatching(old(self).tasks@, fd),
    {
        match self.tasks.remove(&fd) {
            Some(_) => Some(Control::Delete { fd }),
            None => None,
        }
    }

    /// Wakes the tasks that the reports of one wait are for, in the order of the
    /// reports. A report for a descriptor that is not registered is passed over.
    pub fn wait(&self, events: &[Event], scheduler: &mut Scheduler<T>)
        ensures
            final(scheduler).runnable@ == old(scheduler).runnable@ + woken(self.tasks@, events@),
    {
        let mut i: usize = 0;
        assert(events@.take(0) =~= Seq::empty());
        while i < events.len()
            invariant
                i <= events.len(),
                scheduler.runnable@ == old(scheduler).runnable@ + woken(
                    self.tasks@,
                    events@.take(i as int),
                ),
            decreases events.len() - i,
        {
            let fd: i32 = #[verifier::truncate] (events[i].data as i32);
            assert(events@.take(i + 1).drop_last() =~= events@.take(i as int));
            if let Some(waker) = self.tasks.get(&fd) {
                waker.wake(scheduler);
            }
            i = i + 1;
        }
        assert(events@.take(i as int) =~= events@);
    }
}

/// A descriptor comes back from the data that it was registered under.
pub proof fn law_descriptor_round_trip(fd: i32)
    ensures
        fd_of(data_of(fd)) == fd,
{
    assert(fd as u64 as i32 == fd) by (bit_vector);
}

/// The kernel's interest list holds exactly the registered descriptors: if it did
/// before, it does after `add`, whether or not the kernel has made the change, and after
/// `remove`, where the kernel has made the change that there was to make.
pub proof fn law_interest_list_matches_tasks<T>(
    tasks: Map<i32, Waker<T>>,
    fd: i32,
    waker: Waker<T>,
    event: Event,
    outcome: Outcome,
)
    ensures
        interest_after(tasks.dom(), Some(Control::Add { fd, event }), outcome) == tasks_after(
            tasks,
            fd,
            waker,
            outcome,
        ).dom(),
        interest_after(tasks.dom(), unwatching(tasks, fd), Outcome::Done) == tasks_without(
            tasks,
            fd,
        ).dom(),
{
    assert(tasks.insert(fd, waker).dom() =~= tasks.dom().insert(fd));
    assert(tasks.remove(fd).dom() =~= tasks.dom().remove(fd));
}

/// A registration that the kernel has not made leaves no trace: every batch of reports
/// wakes what it would have woken without it, and a waker stored before is kept.
pub proof fn law_failed_registration_changes_nothing<T>(
    tasks: Map<i32, Waker<T>>,
    fd: i32,
    waker: Waker<T>,
    outcome: Outcome,
    events: Seq<Event>,
)
    requires
        !(outcome is Done),
    ensures
        tasks_after(tasks, fd, waker, outcome) == tasks,
        woken(tasks_after(tasks, fd, waker, outcome), events) == woken(tasks, events),
{
}

/// A registered descriptor that becomes ready has its task woken: the report made under
/// the data of its registration leads to the task of the waker that `add` got, once the
/// kernel had made the registration.
pub proof fn law_ready_descriptor_wakes_its_task<T>(
    tasks: Map<i32, Waker<T>>,
    fd: i32,
    waker: Waker<T>,
    events: Seq<Event>,
    k: int,
)
    requires
        0 <= k < events.len(),
        events[k].data == data_of(fd),
    ensures
        woken(tasks_after(tasks, fd, waker, Outcome::Done), events).contains(waker.task()),
    decreases events.len(),
{
    let registered = tasks_after(tasks, fd, waker, Outcome::Done);
    law_descriptor_round_trip(fd);
    let before = woken(registered, events.drop_last());
    if k == events.len() - 1 {
        assert(woken(registered, events) == before.push(waker.task()));
        assert(woken(registered, events).last() == waker.task());
    } else {
        law_ready_descriptor_wakes_its_task(tasks, fd, waker, events.drop_last(), k);
        let j = before.index_of(waker.task());
        assert(woken(registered, events)[j] == waker.task());
    }
}

/// One report wakes at most one task.
pub proof fn law_reports_wake_one_each<T>(tasks: Map<i32, Waker<T>>, events: Seq<Event>)
    ensures
        woken(tasks, events).len() <= events.len(),
    decreases events.len(),
{
    if events.len() > 0 {
        law_reports_wake_one_each(tasks, events.drop_last());
    }
}

/// A task whose descriptor becomes ready is polled, whatever the other tasks do: after
/// the wait that brings the report, at most as many turns pass as there were runnable
/// tasks and reports.
pub proof fn law_ready_task_is_polled<T>(
    queue: Seq<Arc<T>>,
    tasks: Map<i32, Waker<T>>,
    fd: i32,
    waker: Waker<T>,
    events: Seq<Event>,
    k: int,
    turns: Seq<Seq<Arc<T>>>,
)
    requires
        0 <= k < events.len(),
        events[k].data == data_of(fd),
        turns.len() >= queue.len() + events.len(),
    ensures
        polled(
            queue + woken(tasks_after(tasks, fd, waker, Outcome::Done), events),
            turns,
        ).contains(waker.task()),
{
    let registered = tasks_after(tasks, fd, waker, Outcome::Done);
    let ready = woken(registered, events);
    law_ready_descriptor_wakes_its_task(tasks, fd, waker, events, k);
    law_reports_wake_one_each(registered, events);
    let i = queue.len() + ready.index_of(waker.task());
    assert((queue + ready)[i] == waker.task());
    law_first_come_first_served(queue + ready, turns, i);
}

/// A removed descriptor receives no notifications: a batch of reports wakes what it
/// would wake if the reports for that descriptor were not in it.
pub proof fn law_removed_descriptor_is_silent<T>(
    tasks: Map<i32, Waker<T>>,
    fd: i32,
    events: Seq<Event>,
)
    ensures
        woken(tasks_without(tasks, fd), events) == woken(
            tasks,
            events.filter(|event: Event| fd_of(event.data) != fd),
        ),
    decreases events.len(),
{
    let others = |event: Event| fd_of(event.data) != fd;
    reveal(Seq::filter);
    if events.len() > 0 {
        law_removed_descriptor_is_silent(tasks, fd, events.drop_last());
        if others(events.last()) {
            let kept = events.drop_last().filter(others);
            assert(kept.push(events.last()).drop_last() =~= kept);
        }
    }
}

/// Reports are worked off in order: two batches wake what they would wake as one.
pub proof fn law_reports_keep_their_order<T>(
    tasks: Map<i32, Waker<T>>,
    first: Seq<Event>,
    second: Seq<Event>,
)
    ensures
        woken(tasks, first + second) == woken(tasks, first) + woken(tasks, second),
    decreases second.len(),
{
    if second.len() == 0 {
        assert(first + second =~= first);
        assert(woken(tasks, second) =~= Seq::empty());
    } else {
        law_reports_keep_their_order(tasks, first, second.drop_last());
        assert((first + second).drop_last() =~= first + second.drop_last());
        assert(woken(tasks, first + second) =~= woken(tasks, first) + woken(tasks, second));
    }
}

/// A registration is about its own descriptor alone: whatever comes of it, every other
/// descriptor is registered or not as it was, with the waker that it had. Its own is
/// registered with the waker that was given if the kernel has made the change, and else is
/// as it was.
pub proof fn law_registration_leaves_others_alone<T>(
    tasks: Map<i32, Waker<T>>,
    fd: i32,
    waker: Waker<T>,
    outcome: Outcome,
    other: i32,
)
    ensures
        ({
            let later = tasks_after(tasks, fd, waker, outcome);
            if other == fd && outcome is Done {
                later.contains_key(other) && later[other] == waker
            } else {
                &&& later.contains_key(other) == tasks.contains_key(other)
                &&& tasks.contains_key(other) ==> later[other] == tasks[other]
            }
        }),
{
}

/// A removal is about its own descriptor alone: that is not registered any more, and every
/// other one is registered or not as it was, with the waker that it had. There is a change
/// to make, for that descriptor, if and only if it was registered.
pub proof fn law_removal_leaves_others_alone<T>(tasks: Map<i32, Waker<T>>, fd: i32, other: i32)
    ensures
        !tasks_without(tasks, fd).contains_key(fd),
        other != fd ==> {
            &&& tasks_without(tasks, fd).contains_key(other) == tasks.contains_key(other)
            &&& tasks.contains_key(other) ==> tasks_without(tasks, fd)[other] == tasks[other]
        },
        match unwatching(tasks, fd) {
            Some(Control::Delete { fd: named }) => named == fd && tasks.contains_key(fd),
            Some(_) => false,
            None => !tasks.contains_key(fd),
        },
{
}

/// One report wakes the task registered for its descriptor, if there is one, and no other.
pub proof fn law_report_wakes_its_task_only<T>(tasks: Map<i32, Waker<T>>, event: Event)
    ensures
        woken(tasks, Seq::empty()).len() == 0,
        woken(tasks, seq![event]) == if tasks.contains_key(fd_of(event.data)) {
            seq![tasks[fd_of(event.data)].task()]
        } else {
            Seq::empty()
        },
{
    reveal_with_fuel(woken, 2);
    assert(seq![event].drop_last() =~= Seq::empty());
    assert(woken(tasks, seq![event]) =~= if tasks.contains_key(fd_of(event.data)) {
        seq![tasks[fd_of(event.data)].task()]
    } else {
        Seq::empty()
    });
}

/// A call of the reactor that changes which descriptors are registered.
pub enum Registration<T> {
    /// `add`, with what came of it.
    Add { fd: i32, waker: Waker<T>, outcome: Outcome },
    /// `remove`.
    Remove { fd: i32 },
}

/// The tasks after `calls`, one after the other.
pub open spec fn tasks_through<T>(
    tasks: Map<i32, Waker<T>>,
    calls: Seq<Registration<T>>,
) -> Map<i32, Waker<T>>
    decreases calls.len(),
{
    if calls.len() == 0 {
        tasks
    } else {
        let before = tasks_through(tasks, calls.drop_last());
        match calls.last() {
            Registration::Add { fd, waker, outcome } => tasks_after(before, fd, waker, outcome),
            Registration::Remove { fd } => tasks_without(before, fd),
        }
    }
}

/// A descriptor keeps its task, and one that has none gets none, however many descriptors
/// are registered and removed, as long as none of these calls names it.
pub proof fn law_registration_lasts<T>(
    tasks: Map<i32, Waker<T>>,
    calls: Seq<Registration<T>>,
    fd: i32,
)
    requires
        forall|k: int|
            0 <= k < calls.len() ==> match #[trigger] calls[k] {
                Registration::Add { fd: other, .. } => other != fd,
                Registration::Remove { fd: other } => other != fd,
            },
    ensures
        tasks_through(tasks, calls).contains_key(fd) == tasks.contains_key(fd),
        tasks.contains_key(fd) ==> tasks_through(tasks, calls)[fd] == tasks[fd],
    decreases calls.len(),
{
    if calls.len() > 0 {
        let front = calls.drop_last();
        assert forall|k: int| 0 <= k < front.len() implies match #[trigger] front[k] {
            Registration::Add { fd: other, .. } => other != fd,
            Registration::Remove { fd: other } => other != fd,
        } by {
            assert(front[k] == calls[k]);
        }
        law_registration_lasts(tasks, front, fd);
        assert(calls.last() == calls[calls.len() - 1]);
    }
}

/// Reports for a descriptor wake the task that was registered for it, and only that,
/// however many descriptors are registered and removed in between, as long as none of these
/// calls names it.
pub proof fn law_report_finds_its_task<T>(
    tasks: Map<i32, Waker<T>>,
    fd: i32,
    waker: Waker<T>,
    calls: Seq<Registration<T>>,
    event: Event,
)
    requires
        forall|k: int|
            0 <= k < calls.len() ==> match #[trigger] calls[k] {
                Registration::Add { fd: other, .. } => other != fd,
                Registration::Remove { fd: other } => other != fd,
            },
        event.data == data_of(fd),
    ensures
        woken(
            tasks_through(tasks_after(tasks, fd, waker, Outcome::Done), calls),
            seq![event],
        ) == seq![waker.task()],
        woken(
            tasks_through(tasks_without(tasks, fd), calls),
            seq![event],
        ) == Seq::<Arc<T>>::empty(),
{
    law_descriptor_round_trip(fd);
    let registered = tasks_after(tasks, fd, waker, Outcome::Done);
    law_registration_leaves_others_alone(tasks, fd, waker, Outcome::Done, fd);
    law_registration_lasts(registered, calls, fd);
    law_report_wakes_its_task_only(tasks_through(registered, calls), event);
    let removed = tasks_without(tasks, fd);
    law_registration_lasts(removed, calls, fd);
    law_report_wakes_its_task_only(tasks_through(removed, calls), event);
}

/// A descriptor is watched for reading and for writing, and for nothing else, under its own
/// number, and no other descriptor is registered under the same data.
pub proof fn law_watches_for_reading_and_writing(fd: i32, other: i32)
    ensures
        watching(fd) matches Control::Add { fd: named, event } && {
            &&& named == fd
            &&& event.events & 0x001 == 0x001
            &&& event.events & 0x004 == 0x004
            &&& event.events & !0x005u32 == 0
            &&& fd_of(event.data) == fd
            &&& event.data == data_of(other) ==> other == fd
        },
{
    law_descriptor_round_trip(fd);
    law_descriptor_round_trip(other);
    assert((0x001u32 | 0x004u32) & 0x001 == 0x001) by (bit_vector);
    assert((0x001u32 | 0x004u32) & 0x004 == 0x004) by (bit_vector);
    assert((0x001u32 | 0x004u32) & !0x005u32 == 0) by (bit_vector);
}

/// The descriptor of a report is in the lower half of its data, whatever the upper half
/// holds.
pub proof fn law_descriptor_is_the_lower_half(data: u64)
    ensures
        fd_of(data) as u32 == (data & 0xffff_ffff) as u32,
{
    assert(data as i32 as u32 == (data & 0xffff_ffff) as u32) by (bit_vector);
}

} // verus!
