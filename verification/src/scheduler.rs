//! The queue of runnable tasks and the wakers that feed it.

use std::collections::VecDeque;
use std::sync::Arc;
use vstd::prelude::*;

verus! {

/// Makes one task runnable again. Clones wake the same task.
pub struct Waker<T>(Arc<T>);

/// The queue once `task` has become runnable.
pub open spec fn joined<A>(queue: Seq<A>, task: A) -> Seq<A> {
    queue.push(task)
}

impl<T> Waker<T> {
    /// The task that this waker makes runnable.
    pub closed spec fn task(&self) -> Arc<T> {
        self.0
    }

    /// Puts the task at the back of the run queue, also if it is queued already.
    pub fn wake(&self, scheduler: &mut Scheduler<T>)
        ensures
            final(scheduler).runnable@ == joined(old(scheduler).runnable@, self.task()),
    {
        scheduler.runnable.push_back(self.0.clone());
    }
}

impl<T> Clone for Waker<T> {
    fn clone(&self) -> (res: Self)
        ensures
            res == *self,
    {
        Waker(self.0.clone())
    }
}

/// What an executor has to do next.
pub enum Turn<T> {
    /// Poll `task`, handing it `waker`.
    Poll { task: Arc<T>, waker: Waker<T> },
    /// No task is runnable: block until the reactor has woken some.
    Wait,
}

/// The tasks that are ready to be polled, first come first served.
pub struct Scheduler<T> {
    pub runnable: VecDeque<Arc<T>>,
}

impl<T> Default for Scheduler<T> {
    fn default() -> (res: Self)
        ensures
            res.runnable@ == Seq::<Arc<T>>::empty(),
    {
        Scheduler { runnable: VecDeque::new() }
    }
}

/// The task that a turn takes from `queue`: the one at the front, if there is one.
pub open spec fn taken<A>(queue: Seq<A>) -> Option<A> {
    if queue.len() > 0 {
        Some(queue.first())
    } else {
        None
    }
}

/// What a turn leaves of `queue`.
pub open spec fn remaining<A>(queue: Seq<A>) -> Seq<A> {
    if queue.len() > 0 {
        queue.drop_first()
    } else {
        queue
    }
}

impl<T> Scheduler<T> {
    /// Takes a new task and makes it runnable, behind all that are runnable already.
    pub fn spawn(&mut self, task: T)
        ensures
            final(self).runnable@ == joined(old(self).runnable@, Arc::new(task)),
    {
        self.runnable.push_back(Arc::new(task));
    }

    /// One turn of the executor's loop: takes the task at the front of the queue, and
    /// with it a waker that puts this very task back, or asks to wait if there is none.
    pub fn run(&mut self) -> (turn: Turn<T>)
        ensures
            final(self).runnable@ == remaining(old(self).runnable@),
            match turn {
                Turn::Poll { task, waker } => {
                    &&& taken(old(self).runnable@) == Some(task)
                    &&& waker.task() == task
                },
                Turn::Wait => taken(old(self).runnable@) is None,
            },
    {
        match self.runnable.pop_front() {
            Some(task) => {
                let waker = Waker(task.clone());
                Turn::Poll { task, waker }
            },
            None => Turn::Wait,
        }
    }
}

/// Whether an executor can find the queues `queues`, one after the other, when it takes
/// its turns: what a turn leaves is followed by the tasks `woken[k]`, which the poll of
/// turn `k`, or the wait in its place, has made runnable.
pub open spec fn takes_turns<A>(queues: Seq<Seq<A>>, woken: Seq<Seq<A>>) -> bool {
    &&& queues.len() == woken.len() + 1
    &&& forall|k: int|
        #![trigger woken[k]]
        0 <= k < woken.len() ==> queues[k + 1] == remaining(queues[k]) + woken[k]
}

/// The tasks that `woken.len()` turns poll, in order, where the poll of turn `k`, or the
/// wait in its place, makes the tasks `woken[k]` runnable.
pub open spec fn polled<A>(queue: Seq<A>, woken: Seq<Seq<A>>) -> Seq<A>
    decreases woken.len(),
{
    if woken.len() == 0 {
        Seq::empty()
    } else {
        let later = polled(remaining(queue) + woken.first(), woken.drop_first());
        match taken(queue) {
            Some(task) => seq![task] + later,
            None => later,
        }
    }
}

/// The turns after the first are turns of their own.
proof fn lemma_later_turns<A>(queues: Seq<Seq<A>>, woken: Seq<Seq<A>>)
    requires
        takes_turns(queues, woken),
        woken.len() > 0,
    ensures
        queues[1] == remaining(queues[0]) + woken.first(),
        takes_turns(queues.drop_first(), woken.drop_first()),
{
    assert(queues[0int + 1] == remaining(queues[0]) + woken[0]);
    assert forall|k: int|
        #![trigger woken.drop_first()[k]]
        0 <= k < woken.drop_first().len() implies queues.drop_first()[k + 1] == remaining(
        queues.drop_first()[k],
    ) + woken.drop_first()[k] by {
        assert(queues[k + 1 + 1] == remaining(queues[k + 1]) + woken[k + 1]);
    }
}

/// What each turn polls of the queue that it finds: one task, or none if it has to wait.
pub open spec fn turns<A>(queues: Seq<Seq<A>>, woken: Seq<Seq<A>>) -> Seq<Seq<A>> {
    Seq::new(
        woken.len(),
        |k: int|
            match taken(queues[k]) {
                Some(task) => seq![task],
                None => Seq::empty(),
            },
    )
}

/// `polled` is what the turns take, one after the other, also where the executor has to
/// wait in between.
pub proof fn law_polled_is_what_turns_take<A>(queues: Seq<Seq<A>>, woken: Seq<Seq<A>>)
    requires
        takes_turns(queues, woken),
    ensures
        polled(queues[0], woken) == turns(queues, woken).flatten(),
    decreases woken.len(),
{
    if woken.len() > 0 {
        lemma_later_turns(queues, woken);
        law_polled_is_what_turns_take(queues.drop_first(), woken.drop_first());
        assert(turns(queues, woken).drop_first() =~= turns(
            queues.drop_first(),
            woken.drop_first(),
        ));
        assert(Seq::<A>::empty() + polled(queues[1], woken.drop_first()) =~= polled(
            queues[1],
            woken.drop_first(),
        ));
    }
}

/// As long as the executor need not wait, turn `k` polls the task at the front of the queue
/// that it finds.
pub proof fn law_turns_poll_the_front<A>(queues: Seq<Seq<A>>, woken: Seq<Seq<A>>)
    requires
        takes_turns(queues, woken),
        forall|k: int| 0 <= k < woken.len() ==> (#[trigger] queues[k]).len() > 0,
    ensures
        polled(queues[0], woken) == Seq::new(woken.len(), |k: int| taken(queues[k])->0),
    decreases woken.len(),
{
    if woken.len() > 0 {
        lemma_later_turns(queues, woken);
        let later = queues.drop_first();
        assert forall|k: int| 0 <= k < woken.len() - 1 implies (#[trigger] later[k]).len() > 0 by {
            assert(queues[k + 1].len() > 0);
        }
        law_turns_poll_the_front(later, woken.drop_first());
        assert(queues[0].len() > 0);
        assert(polled(queues[0], woken) =~= Seq::new(
            woken.len(),
            |k: int| taken(queues[k])->0,
        ));
    }
}

/// No task is lost and none is made up, across polls and waits: what has been polled,
/// followed by what is runnable at the end, is what was runnable at the beginning,
/// followed by all that has become runnable since.
pub proof fn law_no_task_is_lost<A>(queues: Seq<Seq<A>>, woken: Seq<Seq<A>>)
    requires
        takes_turns(queues, woken),
    ensures
        polled(queues[0], woken) + queues.last() == queues[0] + woken.flatten(),
    decreases woken.len(),
{
    if woken.len() == 0 {
        assert(polled(queues[0], woken) + queues.last() =~= queues[0] + woken.flatten());
    } else {
        lemma_later_turns(queues, woken);
        law_no_task_is_lost(queues.drop_first(), woken.drop_first());
        let later = polled(queues[1], woken.drop_first());
        assert(later + queues.last() == queues[1] + woken.drop_first().flatten());
        assert(woken.flatten() =~= woken.first() + woken.drop_first().flatten());
        match taken(queues[0]) {
            Some(task) => {
                assert((seq![task] + later) + queues.last() =~= seq![task] + (later
                    + queues.last()));
                assert(seq![task] + remaining(queues[0]) =~= queues[0]);
                assert(seq![task] + ((remaining(queues[0]) + woken.first())
                    + woken.drop_first().flatten()) =~= queues[0] + woken.flatten());
            },
            None => {
                assert((queues[0] + woken.first()) + woken.drop_first().flatten() =~= queues[0]
                    + woken.flatten());
            },
        }
    }
}

/// No task is polled more often than it was made runnable. The polls that it is still
/// owed are in the queue.
pub proof fn law_polled_as_often_as_queued<A>(queues: Seq<Seq<A>>, woken: Seq<Seq<A>>, task: A)
    requires
        takes_turns(queues, woken),
    ensures
        ({
            let polls = polled(queues[0], woken).to_multiset().count(task);
            let queued = (queues[0] + woken.flatten()).to_multiset().count(task);
            &&& polls <= queued
            &&& polls + queues.last().to_multiset().count(task) == queued
        }),
{
    broadcast use vstd::multiset::group_multiset_axioms;

    law_no_task_is_lost(queues, woken);
    vstd::seq_lib::lemma_multiset_commutative(polled(queues[0], woken), queues.last());
}

/// Tasks are polled in the order in which they became runnable: whatever the polls make
/// runnable, the turn that finds a task with `i` others in front of it is followed, `i`
/// turns later, by the turn that takes it.
pub proof fn law_queue_moves_up<A>(queues: Seq<Seq<A>>, woken: Seq<Seq<A>>, k: int, i: int)
    requires
        takes_turns(queues, woken),
        0 <= k < queues.len(),
        0 <= i < queues[k].len(),
        k + i < queues.len(),
    ensures
        taken(queues[k + i]) == Some(queues[k][i]),
    decreases i,
{
    if i > 0 {
        assert(queues[k + 1] == remaining(queues[k]) + woken[k]);
        assert(queues[k + 1][i - 1] == queues[k][i]);
        law_queue_moves_up(queues, woken, k + 1, i - 1);
    }
}

/// A task with `i` others in front of it is the one polled after `i` others.
pub proof fn law_first_come_first_served<A>(queue: Seq<A>, woken: Seq<Seq<A>>, i: int)
    requires
        0 <= i < queue.len(),
        i < woken.len(),
    ensures
        polled(queue, woken).len() > i,
        polled(queue, woken)[i] == queue[i],
    decreases i,
{
    if i > 0 {
        let rest = remaining(queue) + woken.first();
        law_first_come_first_served(rest, woken.drop_first(), i - 1);
        assert(rest[i - 1] == queue[i]);
    }
}

/// A task that becomes runnable waits behind all that are runnable already, which keep
/// their places.
pub proof fn law_joins_at_the_back<A>(queue: Seq<A>, task: A)
    ensures
        joined(queue, task).len() == queue.len() + 1,
        joined(queue, task)[queue.len() as int] == task,
        forall|i: int| 0 <= i < queue.len() ==> #[trigger] joined(queue, task)[i] == queue[i],
{
}

/// A turn takes one task and leaves the others in their places, each moved up by one; it
/// takes none only if there is none.
pub proof fn law_turn_takes_the_front<A>(queue: Seq<A>)
    ensures
        match taken(queue) {
            Some(task) => seq![task] + remaining(queue) == queue,
            None => queue.len() == 0 && remaining(queue).len() == 0,
        },
{
    if queue.len() > 0 {
        assert(seq![queue.first()] + queue.drop_first() =~= queue);
    }
}

/// A task that becomes runnable is polled after all that were runnable before it, and
/// before all that become runnable later: the turn that takes it comes after exactly as many
/// turns as there were tasks.
pub proof fn law_joined_task_is_polled_in_turn<A>(
    queue: Seq<A>,
    task: A,
    queues: Seq<Seq<A>>,
    woken: Seq<Seq<A>>,
)
    requires
        takes_turns(queues, woken),
        queues[0] == joined(queue, task),
        queue.len() < woken.len(),
    ensures
        taken(queues[queue.len() as int]) == Some(task),
        polled(queues[0], woken)[queue.len() as int] == task,
        forall|i: int| 0 <= i < queue.len() ==> #[trigger] polled(queues[0], woken)[i] == queue[i],
{
    law_joins_at_the_back(queue, task);
    law_queue_moves_up(queues, woken, 0, queue.len() as int);
    law_first_come_first_served(queues[0], woken, queue.len() as int);
    assert forall|i: int| 0 <= i < queue.len() implies #[trigger] polled(queues[0], woken)[i]
        == queue[i] by {
        law_first_come_first_served(queues[0], woken, i);
    }
}

} // verus!
