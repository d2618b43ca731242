//! Values that are computed in several goes, and how they are put together.

use crate::scheduler::Waker;
use std::marker::PhantomData;
use vstd::prelude::*;

verus! {

/// A computation that can be taken up again and again until it has a result. `T` is what
/// the scheduler keeps of a task.
pub trait Future<T> {
    type Output;

    /// Whether the future can be polled as it is. Any can, unless its type says more.
    open spec fn pollable(&self) -> bool {
        true
    }

    /// Whether a poll with `waker` can leave the future as `after` and return `out`.
    /// Nothing is ruled out, unless its type says more.
    open spec fn polls_to(
        &self,
        waker: Waker<T>,
        after: &Self,
        out: Option<Self::Output>,
    ) -> bool {
        true
    }

    /// Carries the computation on as far as it goes now. If it returns `None`, there is
    /// no result yet, and `waker` is to be called when it is worth trying again.
    fn poll(&mut self, waker: Waker<T>) -> (out: Option<Self::Output>)
        requires
            old(self).pollable(),
        ensures
            final(self).pollable(),
            old(self).polls_to(waker, &*final(self), out),
    ;

    /// This future, followed by the one that `transition` makes of its result.
    fn chain<F, U>(self, transition: F) -> (res: Chain<Self, F, U>) where
        F: FnOnce(Self::Output) -> U,
        Self: Sized,

        ensures
            res == (Chain::<Self, F, U>::First { future1: self, transition: Some(transition) }),
    {
        Chain::First { future1: self, transition: Some(transition) }
    }
}

/// Two futures, the second of which is made of the result of the first.
pub enum Chain<T1, F, T2> {
    /// The first has no result yet. `transition` is there to be called once.
    First { future1: T1, transition: Option<F> },
    /// The first is through.
    Second { future2: T2 },
}

impl<T, T1, F, T2> Future<T> for Chain<T1, F, T2> where
    T1: Future<T>,
    F: FnOnce(<T1 as Future<T>>::Output) -> T2,
    T2: Future<T>,
 {
    type Output = <T2 as Future<T>>::Output;

    /// The future at work is pollable, and the transition, which has not been called
    /// yet, takes any result of the first and makes a pollable future of it.
    open spec fn pollable(&self) -> bool {
        match self {
            Chain::First { future1, transition } => {
                &&& future1.pollable()
                &&& transition is Some
                &&& forall|value: <T1 as Future<T>>::Output| #[trigger]
                    call_requires(transition->0, (value,))
                &&& forall|value: <T1 as Future<T>>::Output, future2: T2| #[trigger]
                    call_ensures(transition->0, (value,), future2) ==> future2.pollable()
            },
            Chain::Second { future2 } => future2.pollable(),
        }
    }

    /// A chain whose first future has no result yet stays with it, and has none either.
    /// When the first has one, the transition is called with it, and the second future
    /// is polled at once, with the same waker; from then on the chain is the second
    /// future.
    open spec fn polls_to(
        &self,
        waker: Waker<T>,
        after: &Self,
        out: Option<Self::Output>,
    ) -> bool {
        match self {
            Chain::First { future1, transition } => match after {
                Chain::First { future1: later, transition: kept } => {
                    &&& future1.polls_to(waker, later, None)
                    &&& kept == transition
                    &&& out is None
                },
                Chain::Second { future2: later } => exists|
                    done: T1,
                    value: <T1 as Future<T>>::Output,
                    future2: T2,
                | {
                    &&& #[trigger] future1.polls_to(waker, &done, Some(value))
                    &&& #[trigger] call_ensures(transition->0, (value,), future2)
                    &&& future2.polls_to(waker, later, out)
                },
            },
            Chain::Second { future2 } => match after {
                Chain::First { .. } => false,
                Chain::Second { future2: later } => future2.polls_to(waker, later, out),
            },
        }
    }

    fn poll(&mut self, waker: Waker<T>) -> (out: Option<Self::Output>) {
        if let Chain::First { future1, transition } = self {
            match future1.poll(waker.clone()) {
                Some(value) => {
                    let future2 = (transition.take().unwrap())(value);
                    *self = Chain::Second { future2 };
                },
                None => return None,
            }
        }
        if let Chain::Second { future2 } = self {
            return future2.poll(waker);
        }
        None
    }
}

/// A future together with the data that it was made from.
pub struct WithData<'data, D, F> {
    pub data: D,
    pub future: F,
    pub _data: PhantomData<&'data D>,
}

impl<'data, D, F> WithData<'data, D, F> {
    /// Makes a future from `data` and keeps both.
    pub fn new(data: D, construct: impl Fn(&D) -> F) -> (res: Self)
        requires
            call_requires(construct, (&data,)),
        ensures
            call_ensures(construct, (&data,), res.future),
            res.data == data,
    {
        let future = construct(&data);
        WithData { data, future, _data: PhantomData }
    }
}

impl<'data, T, D, F> Future<T> for WithData<'data, D, F> where F: Future<T> {
    type Output = <F as Future<T>>::Output;

    open spec fn pollable(&self) -> bool {
        self.future.pollable()
    }

    /// It does what its future does, and keeps its data.
    open spec fn polls_to(
        &self,
        waker: Waker<T>,
        after: &Self,
        out: Option<Self::Output>,
    ) -> bool {
        &&& self.future.polls_to(waker, &after.future, out)
        &&& after.data == self.data
    }

    fn poll(&mut self, waker: Waker<T>) -> (out: Option<Self::Output>) {
        self.future.poll(waker)
    }
}

/// A future with its data can be polled if and only if the future can, returns in a poll
/// what the future returns, with the same waker, and still has its data after any number of
/// polls.
pub proof fn law_data_stays_with_its_future<'data, T, V, D, F>(
    states: Seq<WithData<'data, D, F>>,
    wakers: Seq<Waker<T>>,
    outs: Seq<Option<V>>,
    k: int,
) where F: Future<T, Output = V>
    requires
        polled_through(states, wakers, outs),
        0 <= k < wakers.len(),
    ensures
        <WithData<'data, D, F> as Future<T>>::pollable(&states[k]) == <F as Future<T>>::pollable(
            &states[k].future,
        ),
        states[k].future.polls_to(wakers[k], &states[k + 1].future, outs[k]),
        states[k + 1].data == states[0].data,
    decreases k,
{
    if k > 0 {
        law_data_stays_with_its_future(states, wakers, outs, k - 1);
    }
    assert(states[k].polls_to(wakers[k], &states[k + 1], outs[k]));
}

/// A function that a future can stand for. What it does may depend on what it has been
/// called with before.
pub trait PollFunction<T, U> {
    /// Whether the function can be called, with whatever waker.
    open spec fn callable(&self) -> bool {
        true
    }

    /// Whether one call with `waker` can leave the function as `after` and return `out`.
    /// Nothing is ruled out, unless its type says more.
    open spec fn calls_to(&self, waker: Waker<T>, after: &Self, out: Option<U>) -> bool {
        true
    }

    /// One call.
    fn call_with(&mut self, waker: Waker<T>) -> (out: Option<U>)
        requires
            old(self).callable(),
        ensures
            final(self).callable(),
            old(self).calls_to(waker, &*final(self), out),
    ;
}

impl<T, U, F> PollFunction<T, U> for F where F: FnMut(Waker<T>) -> Option<U> {
    open spec fn callable(&self) -> bool {
        forall|waker: Waker<T>| #[trigger] call_requires(*self, (waker,))
    }

    /// A call returns what the function's contract allows. The contract of a closure has
    /// no word on what a call makes of what the closure has captured, so neither this nor
    /// the number of calls is stated here.
    open spec fn calls_to(&self, waker: Waker<T>, after: &Self, out: Option<U>) -> bool {
        call_ensures(*self, (waker,), out)
    }

    fn call_with(&mut self, waker: Waker<T>) -> (out: Option<U>) {
        (*self)(waker)
    }
}

/// A future that a function stands for.
pub struct FromFn<F, U> {
    pub f: F,
    pub output: PhantomData<U>,
}

impl<T, U, F> Future<T> for FromFn<F, U> where F: PollFunction<T, U> {
    type Output = U;

    open spec fn pollable(&self) -> bool {
        self.f.callable()
    }

    /// A poll is one call of the function, with the waker of the poll, and its result is
    /// the function's.
    open spec fn polls_to(
        &self,
        waker: Waker<T>,
        after: &Self,
        out: Option<Self::Output>,
    ) -> bool {
        self.f.calls_to(waker, &after.f, out)
    }

    fn poll(&mut self, waker: Waker<T>) -> (out: Option<Self::Output>) {
        self.f.call_with(waker)
    }
}

/// The future whose polls are calls of `f`.
pub fn poll_fn<T, F, U>(f: F) -> (res: FromFn<F, U>) where F: FnMut(Waker<T>) -> Option<U>
    ensures
        res.f == f,
{
    FromFn { f, output: PhantomData }
}

/// A future that a function stands for can be polled if the function can be called with
/// any waker, and what a poll returns is what the function returns.
pub proof fn law_poll_is_a_call<T, U, F>(
    future: FromFn<F, U>,
    waker: Waker<T>,
    after: FromFn<F, U>,
    out: Option<U>,
) where F: FnMut(Waker<T>) -> Option<U>
    ensures
        <FromFn<F, U> as Future<T>>::pollable(&future) == forall|waker: Waker<T>| #[trigger]
            call_requires(future.f, (waker,)),
        future.polls_to(waker, &after, out) == call_ensures(future.f, (waker,), out),
{
}

/// A chain can be polled if its first future can and its transition takes any result of
/// that and makes a pollable future of it.
pub proof fn law_chain_is_pollable<T, V, W, T1, F, T2>(future1: T1, transition: F) where
    T1: Future<T, Output = V>,
    F: FnOnce(V) -> T2,
    T2: Future<T, Output = W>,

    requires
        <T1 as Future<T>>::pollable(&future1),
        forall|value: V| #[trigger] call_requires(transition, (value,)),
        forall|value: V, future2: T2| #[trigger]
            call_ensures(transition, (value,), future2) ==> <T2 as Future<T>>::pollable(&future2),
    ensures
        <Chain<T1, F, T2> as Future<T>>::pollable(
            &Chain::First { future1, transition: Some(transition) },
        ),
{
}

/// A chain that has handed over can be polled if and only if its second future can.
pub proof fn law_second_is_pollable<T, V, W, T1, F, T2>(chain: Chain<T1, F, T2>) where
    T1: Future<T, Output = V>,
    F: FnOnce(V) -> T2,
    T2: Future<T, Output = W>,

    requires
        chain is Second,
    ensures
        <Chain<T1, F, T2> as Future<T>>::pollable(&chain) == <T2 as Future<T>>::pollable(
            &chain->future2,
        ),
{
}

/// The poll of a chain that is with its first future: either that has no result, and the
/// chain has none, or it has one, and the chain returns what the first poll of the
/// future that the transition makes of it returns.
pub proof fn law_chain_polls_in_turn<T, V, W, T1, F, T2>(
    future1: T1,
    transition: F,
    waker: Waker<T>,
    after: Chain<T1, F, T2>,
    out: Option<W>,
) where T1: Future<T, Output = V>, F: FnOnce(V) -> T2, T2: Future<T, Output = W>
    requires
        (Chain::First { future1, transition: Some(transition) }).polls_to(waker, &after, out),
    ensures
        match after {
            Chain::First { future1: later, transition: kept } => {
                &&& future1.polls_to(waker, &later, None)
                &&& kept == Some(transition)
                &&& out is None
            },
            Chain::Second { future2: later } => exists|
                done: T1,
                value: V,
                future2: T2,
            | {
                &&& #[trigger] future1.polls_to(waker, &done, Some(value))
                &&& #[trigger] call_ensures(transition, (value,), future2)
                &&& future2.polls_to(waker, &later, out)
            },
        },
{
}

/// Whether a future can go through `states` when it is polled with `wakers`, returning
/// `outs`.
pub open spec fn polled_through<T, P: Future<T>>(
    states: Seq<P>,
    wakers: Seq<Waker<T>>,
    outs: Seq<Option<P::Output>>,
) -> bool {
    &&& states.len() == wakers.len() + 1
    &&& outs.len() == wakers.len()
    &&& forall|k: int|
        #![trigger states[k]]
        0 <= k < wakers.len() ==> states[k].polls_to(wakers[k], &states[k + 1], outs[k])
}

/// A run of polls of a future that a function stands for is a run of calls: each poll is
/// one call, with its waker, of the function as the call before has left it, and returns
/// what this call returns. There can be a poll whenever there can be a call.
pub proof fn law_polls_are_calls<T, U, F>(
    states: Seq<FromFn<F, U>>,
    wakers: Seq<Waker<T>>,
    outs: Seq<Option<U>>,
) where F: PollFunction<T, U>
    requires
        states.len() == wakers.len() + 1,
        outs.len() == wakers.len(),
    ensures
        polled_through(states, wakers, outs) == forall|k: int|
            #![trigger states[k]]
            0 <= k < wakers.len() ==> states[k].f.calls_to(wakers[k], &states[k + 1].f, outs[k]),
        forall|k: int|
            0 <= k < states.len() ==> <FromFn<F, U> as Future<T>>::pollable(#[trigger] &states[k])
                == <F as PollFunction<T, U>>::callable(&states[k].f),
{
    if polled_through(states, wakers, outs) {
        assert forall|k: int|
            #![trigger states[k]]
            0 <= k < wakers.len() implies states[k].f.calls_to(
            wakers[k],
            &states[k + 1].f,
            outs[k],
        ) by {
            assert(states[k].polls_to(wakers[k], &states[k + 1], outs[k]));
        }
    }
}

/// A chain hands over at most once: from the poll in which it does, it stays with the
/// second future, and it has a result only then.
pub proof fn law_chain_hands_over_once<T, T1, F, T2>(
    states: Seq<Chain<T1, F, T2>>,
    wakers: Seq<Waker<T>>,
    outs: Seq<Option<<T2 as Future<T>>::Output>>,
    j: int,
    k: int,
) where T1: Future<T>, F: FnOnce(<T1 as Future<T>>::Output) -> T2, T2: Future<T>
    requires
        polled_through(states, wakers, outs),
        0 <= j <= k < states.len(),
    ensures
        states[j] is Second ==> states[k] is Second,
        k < outs.len() && outs[k] is Some ==> states[k + 1] is Second,
    decreases k - j,
{
    if j < k {
        law_chain_hands_over_once(states, wakers, outs, j, k - 1);
        assert(states[k - 1].polls_to(wakers[k - 1], &states[k], outs[k - 1]));
    }
    if k < outs.len() {
        assert(states[k].polls_to(wakers[k], &states[k + 1], outs[k]));
    }
}

/// A chain that has handed over is its second future: it goes through the same states
/// and returns the same.
pub proof fn law_chain_becomes_second<T, T1, F, T2>(
    states: Seq<Chain<T1, F, T2>>,
    wakers: Seq<Waker<T>>,
    outs: Seq<Option<<T2 as Future<T>>::Output>>,
) where T1: Future<T>, F: FnOnce(<T1 as Future<T>>::Output) -> T2, T2: Future<T>
    requires
        polled_through(states, wakers, outs),
        states.first() is Second,
    ensures
        polled_through(
            states.map_values(|state: Chain<T1, F, T2>| state->future2),
            wakers,
            outs,
        ),
{
    let seconds = states.map_values(|state: Chain<T1, F, T2>| state->future2);
    assert forall|k: int|
        #![trigger seconds[k]]
        0 <= k < wakers.len() implies seconds[k].polls_to(
        wakers[k],
        &seconds[k + 1],
        outs[k],
    ) by {
        law_chain_hands_over_once(states, wakers, outs, 0, k);
        law_chain_hands_over_once(states, wakers, outs, 0, k + 1);
        assert(states[k].polls_to(wakers[k], &states[k + 1], outs[k]));
    }
}

/// A chain whose first future has no result keeps its transition for later: as long as
/// it has not handed over, none of its polls has a result, and the first future goes
/// through its own states undisturbed.
pub proof fn law_chain_waits_for_first<T, T1, F, T2>(
    states: Seq<Chain<T1, F, T2>>,
    wakers: Seq<Waker<T>>,
    outs: Seq<Option<<T2 as Future<T>>::Output>>,
    k: int,
) where T1: Future<T>, F: FnOnce(<T1 as Future<T>>::Output) -> T2, T2: Future<T>
    requires
        polled_through(states, wakers, outs),
        states.last() is First,
        0 <= k < outs.len(),
    ensures
        outs[k] is None,
        states[k] is First,
        states[k + 1] is First,
        states[k + 1]->transition == states[k]->transition,
        states[k]->future1.polls_to(wakers[k], &states[k + 1]->future1, None),
{
    law_chain_hands_over_once(states, wakers, outs, k, states.len() - 1);
    law_chain_hands_over_once(states, wakers, outs, k + 1, states.len() - 1);
    assert(states[k].polls_to(wakers[k], &states[k + 1], outs[k]));
}

/// What it takes for a chain to hand over in a poll.
proof fn lemma_chain_hands_over<T, T1, F, T2>(
    future1: T1,
    transition: F,
    waker: Waker<T>,
    done: T1,
    value: <T1 as Future<T>>::Output,
    future2: T2,
    later: T2,
    out: Option<<T2 as Future<T>>::Output>,
) where T1: Future<T>, F: FnOnce(<T1 as Future<T>>::Output) -> T2, T2: Future<T>
    requires
        future1.polls_to(waker, &done, Some(value)),
        call_ensures(transition, (value,), future2),
        future2.polls_to(waker, &later, out),
    ensures
        (Chain::<T1, F, T2>::First { future1, transition: Some(transition) }).polls_to(
            waker,
            &Chain::Second { future2: later },
            out,
        ),
{
    let chain = Chain::<T1, F, T2>::First { future1, transition: Some(transition) };
    assert(chain->future1.polls_to(waker, &done, Some(value)));
    assert(call_ensures(chain->transition->0, (value,), future2));
}

/// Whether `both` does nothing but what `first` does, and chains `second` to the result.
pub open spec fn chains_on<X, B, F, G, C, H>(first: F, second: G, both: H) -> bool where
    F: FnOnce(X) -> B,
    H: FnOnce(X) -> Chain<B, G, C>,
 {
    forall|value: X, next: Chain<B, G, C>| #[trigger]
        call_ensures(both, (value,), next) ==> exists|future: B| #[trigger]
            call_ensures(first, (value,), future) && next == (Chain::<B, G, C>::First {
                future1: future,
                transition: Some(second),
            })
}

/// Whether `both` can do all that `first` can do, with `second` chained to the result.
/// The contract of a function says what it cannot return and never that it can return
/// some value, so this is known only where it is a premise, of functions that are
/// themselves parameters. For others, `law_groupings_agree` does without it.
pub open spec fn can_chain_on<X, B, F, G, C, H>(first: F, second: G, both: H) -> bool where
    F: FnOnce(X) -> B,
    H: FnOnce(X) -> Chain<B, G, C>,
 {
    forall|value: X, future: B| #[trigger]
        call_ensures(first, (value,), future) ==> call_ensures(
            both,
            (value,),
            Chain::<B, G, C>::First { future1: future, transition: Some(second) },
        )
}

/// Whether `chain` is on its way through `first` and `second`: what it has not called yet
/// of them is there to be called.
pub open spec fn runs_through<A, F, B, G, C>(
    chain: Chain<Chain<A, F, B>, G, C>,
    first: F,
    second: G,
) -> bool {
    match chain {
        Chain::First { future1: Chain::First { transition, .. }, transition: last } => {
            &&& transition == Some(first)
            &&& last == Some(second)
        },
        Chain::First { future1: Chain::Second { .. }, transition: last } => last == Some(second),
        Chain::Second { .. } => true,
    }
}

/// The same three futures, chained from the right: `both` stands for the two
/// transitions.
pub open spec fn regrouped<A, F, B, G, C, H>(
    chain: Chain<Chain<A, F, B>, G, C>,
    both: H,
) -> Chain<A, H, Chain<B, G, C>> {
    match chain {
        Chain::First { future1: Chain::First { future1, .. }, .. } => Chain::First {
            future1,
            transition: Some(both),
        },
        Chain::First { future1: Chain::Second { future2 }, transition } => Chain::Second {
            future2: Chain::First { future1: future2, transition },
        },
        Chain::Second { future2 } => Chain::Second { future2: Chain::Second { future2 } },
    }
}

/// The same three futures, chained from the left, with the transitions `first` and
/// `second`.
pub open spec fn ungrouped<A, F, B, G, C, H>(
    chain: Chain<A, H, Chain<B, G, C>>,
    first: F,
    second: G,
) -> Chain<Chain<A, F, B>, G, C> {
    match chain {
        Chain::First { future1, .. } => Chain::First {
            future1: Chain::First { future1, transition: Some(first) },
            transition: Some(second),
        },
        Chain::Second { future2: Chain::First { future1, .. } } => Chain::First {
            future1: Chain::Second { future2: future1 },
            transition: Some(second),
        },
        Chain::Second { future2: Chain::Second { future2 } } => Chain::Second { future2 },
    }
}

/// Where three futures chained from the left can go in a poll, and with what result,
/// there they can go chained from the right.
pub proof fn law_regrouped_chain_follows<T, A, F, B, G, C, H>(
    chain: Chain<Chain<A, F, B>, G, C>,
    first: F,
    second: G,
    both: H,
    waker: Waker<T>,
    after: Chain<Chain<A, F, B>, G, C>,
    out: Option<<C as Future<T>>::Output>,
) where
    A: Future<T>,
    F: FnOnce(<A as Future<T>>::Output) -> B,
    B: Future<T>,
    G: FnOnce(<B as Future<T>>::Output) -> C,
    C: Future<T>,
    H: FnOnce(<A as Future<T>>::Output) -> Chain<B, G, C>,

    requires
        can_chain_on::<<A as Future<T>>::Output, B, F, G, C, H>(first, second, both),
        runs_through(chain, first, second),
        chain.polls_to(waker, &after, out),
    ensures
        runs_through(after, first, second),
        regrouped(chain, both).polls_to(waker, &regrouped(after, both), out),
{
    if let Chain::First { future1: inner, .. } = chain {
        match after {
            Chain::First { future1: Chain::Second { future2: later }, .. } => {
                if let Chain::First { future1, .. } = inner {
                    let (done, value, future2) = choose|
                        done: A,
                        value: <A as Future<T>>::Output,
                        future2: B,
                    | {
                        &&& #[trigger] future1.polls_to(waker, &done, Some(value))
                        &&& #[trigger] call_ensures(first, (value,), future2)
                        &&& future2.polls_to(waker, &later, None)
                    };
                    let next = Chain::First { future1: future2, transition: Some(second) };
                    let last = Chain::First { future1: later, transition: Some(second) };
                    lemma_chain_hands_over(future1, both, waker, done, value, next, last, out);
                }
            },
            Chain::Second { future2: later } => {
                let (passed, result, future3) = choose|
                    passed: Chain<A, F, B>,
                    result: <B as Future<T>>::Output,
                    future3: C,
                | {
                    &&& #[trigger] inner.polls_to(waker, &passed, Some(result))
                    &&& #[trigger] call_ensures(second, (result,), future3)
                    &&& future3.polls_to(waker, &later, out)
                };
                match inner {
                    Chain::First { future1, .. } => {
                        let (done, value, future2) = choose|
                            done: A,
                            value: <A as Future<T>>::Output,
                            future2: B,
                        | {
                            &&& #[trigger] future1.polls_to(waker, &done, Some(value))
                            &&& #[trigger] call_ensures(first, (value,), future2)
                            &&& future2.polls_to(waker, &passed->future2, Some(result))
                        };
                        lemma_chain_hands_over(
                            future2,
                            second,
                            waker,
                            passed->future2,
                            result,
                            future3,
                            later,
                            out,
                        );
                        let next = Chain::First { future1: future2, transition: Some(second) };
                        let last = Chain::Second { future2: later };
                        lemma_chain_hands_over(future1, both, waker, done, value, next, last, out);
                    },
                    Chain::Second { future2 } => {
                        lemma_chain_hands_over(
                            future2,
                            second,
                            waker,
                            passed->future2,
                            result,
                            future3,
                            later,
                            out,
                        );
                    },
                }
            },
            _ => {},
        }
    }
}

/// Where three futures chained from the right can go in a poll, and with what result,
/// there they can go chained from the left.
pub proof fn law_regrouped_chain_leads<T, A, F, B, G, C, H>(
    chain: Chain<Chain<A, F, B>, G, C>,
    first: F,
    second: G,
    both: H,
    waker: Waker<T>,
    after: Chain<A, H, Chain<B, G, C>>,
    out: Option<<C as Future<T>>::Output>,
) where
    A: Future<T>,
    F: FnOnce(<A as Future<T>>::Output) -> B,
    B: Future<T>,
    G: FnOnce(<B as Future<T>>::Output) -> C,
    C: Future<T>,
    H: FnOnce(<A as Future<T>>::Output) -> Chain<B, G, C>,

    requires
        chains_on::<<A as Future<T>>::Output, B, F, G, C, H>(first, second, both),
        runs_through(chain, first, second),
        regrouped(chain, both).polls_to(waker, &after, out),
    ensures
        runs_through(ungrouped(after, first, second), first, second),
        regrouped(ungrouped(after, first, second), both) == after,
        chain.polls_to(waker, &ungrouped(after, first, second), out),
{
    if let Chain::First { future1: inner, .. } = chain {
        match inner {
            Chain::First { future1, .. } => {
                if let Chain::Second { future2: rest } = after {
                    let (done, value, next) = choose|
                        done: A,
                        value: <A as Future<T>>::Output,
                        next: Chain<B, G, C>,
                    | {
                        &&& #[trigger] future1.polls_to(waker, &done, Some(value))
                        &&& #[trigger] call_ensures(both, (value,), next)
                        &&& next.polls_to(waker, &rest, out)
                    };
                    let future2 = choose|future: B| #[trigger]
                        call_ensures(first, (value,), future) && next
                            == (Chain::<B, G, C>::First {
                            future1: future,
                            transition: Some(second),
                        });
                    match rest {
                        Chain::First { future1: later, .. } => {
                            lemma_chain_hands_over(
                                future1,
                                first,
                                waker,
                                done,
                                value,
                                future2,
                                later,
                                None,
                            );
                        },
                        Chain::Second { future2: later } => {
                            let (passed, result, future3) = choose|
                                passed: B,
                                result: <B as Future<T>>::Output,
                                future3: C,
                            | {
                                &&& #[trigger] future2.polls_to(waker, &passed, Some(result))
                                &&& #[trigger] call_ensures(second, (result,), future3)
                                &&& future3.polls_to(waker, &later, out)
                            };
                            lemma_chain_hands_over(
                                future1,
                                first,
                                waker,
                                done,
                                value,
                                future2,
                                passed,
                                Some(result),
                            );
                            lemma_chain_hands_over(
                                inner,
                                second,
                                waker,
                                Chain::Second { future2: passed },
                                result,
                                future3,
                                later,
                                out,
                            );
                        },
                    }
                }
            },
            Chain::Second { future2 } => {
                if let Chain::Second { future2: Chain::Second { future2: later } } = after {
                    let (passed, result, future3) = choose|
                        passed: B,
                        result: <B as Future<T>>::Output,
                        future3: C,
                    | {
                        &&& #[trigger] future2.polls_to(waker, &passed, Some(result))
                        &&& #[trigger] call_ensures(second, (result,), future3)
                        &&& future3.polls_to(waker, &later, out)
                    };
                    lemma_chain_hands_over(
                        inner,
                        second,
                        waker,
                        Chain::Second { future2: passed },
                        result,
                        future3,
                        later,
                        out,
                    );
                }
            },
        }
    }
}

/// Chaining is associative. Whatever run of polls three futures chained from the left can
/// go through, with the results that they return, they can go through chained from the
/// right, in corresponding states and with the same results.
pub proof fn law_chaining_is_associative<T, A, F, B, G, C, H>(
    states: Seq<Chain<Chain<A, F, B>, G, C>>,
    first: F,
    second: G,
    both: H,
    wakers: Seq<Waker<T>>,
    outs: Seq<Option<<C as Future<T>>::Output>>,
) where
    A: Future<T>,
    F: FnOnce(<A as Future<T>>::Output) -> B,
    B: Future<T>,
    G: FnOnce(<B as Future<T>>::Output) -> C,
    C: Future<T>,
    H: FnOnce(<A as Future<T>>::Output) -> Chain<B, G, C>,

    requires
        can_chain_on::<<A as Future<T>>::Output, B, F, G, C, H>(first, second, both),
        polled_through(states, wakers, outs),
        runs_through(states.first(), first, second),
    ensures
        polled_through(
            states.map_values(|state: Chain<Chain<A, F, B>, G, C>| regrouped(state, both)),
            wakers,
            outs,
        ),
{
    let others = states.map_values(
        |state: Chain<Chain<A, F, B>, G, C>| regrouped(state, both),
    );
    assert forall|k: int|
        #![trigger others[k]]
        0 <= k < wakers.len() implies others[k].polls_to(wakers[k], &others[k + 1], outs[k]) by {
        lemma_run_stays_on_its_way(states, first, second, both, wakers, outs, k);
        assert(states[k].polls_to(wakers[k], &states[k + 1], outs[k]));
        law_regrouped_chain_follows(
            states[k],
            first,
            second,
            both,
            wakers[k],
            states[k + 1],
            outs[k],
        );
    }
}

/// A chain that is polled stays on its way through its transitions.
proof fn lemma_run_stays_on_its_way<T, A, F, B, G, C, H>(
    states: Seq<Chain<Chain<A, F, B>, G, C>>,
    first: F,
    second: G,
    both: H,
    wakers: Seq<Waker<T>>,
    outs: Seq<Option<<C as Future<T>>::Output>>,
    k: int,
) where
    A: Future<T>,
    F: FnOnce(<A as Future<T>>::Output) -> B,
    B: Future<T>,
    G: FnOnce(<B as Future<T>>::Output) -> C,
    C: Future<T>,
    H: FnOnce(<A as Future<T>>::Output) -> Chain<B, G, C>,

    requires
        can_chain_on::<<A as Future<T>>::Output, B, F, G, C, H>(first, second, both),
        polled_through(states, wakers, outs),
        runs_through(states.first(), first, second),
        0 <= k < states.len(),
    ensures
        runs_through(states[k], first, second),
    decreases k,
{
    if k > 0 {
        lemma_run_stays_on_its_way(states, first, second, both, wakers, outs, k - 1);
        assert(states[k - 1].polls_to(wakers[k - 1], &states[k - 1 + 1], outs[k - 1]));
        law_regrouped_chain_follows(
            states[k - 1],
            first,
            second,
            both,
            wakers[k - 1],
            states[k],
            outs[k - 1],
        );
    }
}

/// Chaining is associative, the other way round: whatever run of polls three futures
/// chained from the right can go through, they can go through chained from the left.
pub proof fn law_chaining_is_associative_back<T, A, F, B, G, C, H>(
    start: Chain<Chain<A, F, B>, G, C>,
    states: Seq<Chain<A, H, Chain<B, G, C>>>,
    first: F,
    second: G,
    both: H,
    wakers: Seq<Waker<T>>,
    outs: Seq<Option<<C as Future<T>>::Output>>,
) where
    A: Future<T>,
    F: FnOnce(<A as Future<T>>::Output) -> B,
    B: Future<T>,
    G: FnOnce(<B as Future<T>>::Output) -> C,
    C: Future<T>,
    H: FnOnce(<A as Future<T>>::Output) -> Chain<B, G, C>,

    requires
        chains_on::<<A as Future<T>>::Output, B, F, G, C, H>(first, second, both),
        polled_through(states, wakers, outs),
        runs_through(start, first, second),
        states.first() == regrouped(start, both),
    ensures
        ungrouped(states.first(), first, second) == start,
        polled_through(
            states.map_values(
                |state: Chain<A, H, Chain<B, G, C>>| ungrouped(state, first, second),
            ),
            wakers,
            outs,
        ),
{
    let others = states.map_values(
        |state: Chain<A, H, Chain<B, G, C>>| ungrouped(state, first, second),
    );
    assert forall|k: int|
        #![trigger others[k]]
        0 <= k < wakers.len() implies others[k].polls_to(wakers[k], &others[k + 1], outs[k]) by {
        lemma_regrouped_run_stays_regrouped(start, states, first, second, both, wakers, outs, k);
        assert(states[k].polls_to(wakers[k], &states[k + 1], outs[k]));
        law_regrouped_chain_leads(
            others[k],
            first,
            second,
            both,
            wakers[k],
            states[k + 1],
            outs[k],
        );
    }
}

/// A regrouped chain that is polled stays one.
proof fn lemma_regrouped_run_stays_regrouped<T, A, F, B, G, C, H>(
    start: Chain<Chain<A, F, B>, G, C>,
    states: Seq<Chain<A, H, Chain<B, G, C>>>,
    first: F,
    second: G,
    both: H,
    wakers: Seq<Waker<T>>,
    outs: Seq<Option<<C as Future<T>>::Output>>,
    k: int,
) where
    A: Future<T>,
    F: FnOnce(<A as Future<T>>::Output) -> B,
    B: Future<T>,
    G: FnOnce(<B as Future<T>>::Output) -> C,
    C: Future<T>,
    H: FnOnce(<A as Future<T>>::Output) -> Chain<B, G, C>,

    requires
        chains_on::<<A as Future<T>>::Output, B, F, G, C, H>(first, second, both),
        polled_through(states, wakers, outs),
        runs_through(start, first, second),
        states.first() == regrouped(start, both),
        0 <= k < states.len(),
    ensures
        runs_through(ungrouped(states[k], first, second), first, second),
        regrouped(ungrouped(states[k], first, second), both) == states[k],
    decreases k,
{
    if k > 0 {
        lemma_regrouped_run_stays_regrouped(
            start,
            states,
            first,
            second,
            both,
            wakers,
            outs,
            k - 1,
        );
        assert(states[k - 1].polls_to(wakers[k - 1], &states[k - 1 + 1], outs[k - 1]));
        law_regrouped_chain_leads(
            ungrouped(states[k - 1], first, second),
            first,
            second,
            both,
            wakers[k - 1],
            states[k],
            outs[k - 1],
        );
    }
}

/// Whether polls of `start` with `wakers` can return one series of results only.
pub open spec fn is_determined<T, P: Future<T>>(start: P, wakers: Seq<Waker<T>>) -> bool {
    forall|
        states: Seq<P>,
        outs: Seq<Option<P::Output>>,
        others: Seq<P>,
        other_outs: Seq<Option<P::Output>>,
    |
        #![trigger polled_through(states, wakers, outs), polled_through(others, wakers, other_outs)]
        {
            &&& polled_through(states, wakers, outs)
            &&& polled_through(others, wakers, other_outs)
            &&& states.first() == start
            &&& others.first() == start
        } ==> outs == other_outs
}

/// Where three futures chained from the left can return one series of results only, the
/// same holds of them chained from the right.
pub proof fn law_regrouped_chain_is_determined<T, A, F, B, G, C, H>(
    start: Chain<Chain<A, F, B>, G, C>,
    first: F,
    second: G,
    both: H,
    wakers: Seq<Waker<T>>,
) where
    A: Future<T>,
    F: FnOnce(<A as Future<T>>::Output) -> B,
    B: Future<T>,
    G: FnOnce(<B as Future<T>>::Output) -> C,
    C: Future<T>,
    H: FnOnce(<A as Future<T>>::Output) -> Chain<B, G, C>,

    requires
        chains_on::<<A as Future<T>>::Output, B, F, G, C, H>(first, second, both),
        runs_through(start, first, second),
        is_determined(start, wakers),
    ensures
        is_determined(regrouped(start, both), wakers),
{
    let new = regrouped(start, both);
    assert forall|
        states: Seq<Chain<A, H, Chain<B, G, C>>>,
        outs: Seq<Option<<C as Future<T>>::Output>>,
        others: Seq<Chain<A, H, Chain<B, G, C>>>,
        other_outs: Seq<Option<<C as Future<T>>::Output>>,
    |
        #![trigger polled_through(states, wakers, outs), polled_through(others, wakers, other_outs)]
        {
            &&& polled_through(states, wakers, outs)
            &&& polled_through(others, wakers, other_outs)
            &&& states.first() == new
            &&& others.first() == new
        } implies outs == other_outs by {
        law_chaining_is_associative_back(start, states, first, second, both, wakers, outs);
        let mapped = states.map_values(
            |state: Chain<A, H, Chain<B, G, C>>| ungrouped(state, first, second),
        );
        law_groupings_agree(
            start,
            first,
            second,
            both,
            wakers,
            mapped,
            outs,
            others,
            other_outs,
        );
    }
}

/// Where three futures chained from the left can return one series of results only, they
/// return the same chained from the right: `states` and `outs` are any run of the one chain, `others`
/// and `other_outs` any run of the other.
pub proof fn law_groupings_agree<T, A, F, B, G, C, H>(
    start: Chain<Chain<A, F, B>, G, C>,
    first: F,
    second: G,
    both: H,
    wakers: Seq<Waker<T>>,
    states: Seq<Chain<Chain<A, F, B>, G, C>>,
    outs: Seq<Option<<C as Future<T>>::Output>>,
    others: Seq<Chain<A, H, Chain<B, G, C>>>,
    other_outs: Seq<Option<<C as Future<T>>::Output>>,
) where
    A: Future<T>,
    F: FnOnce(<A as Future<T>>::Output) -> B,
    B: Future<T>,
    G: FnOnce(<B as Future<T>>::Output) -> C,
    C: Future<T>,
    H: FnOnce(<A as Future<T>>::Output) -> Chain<B, G, C>,

    requires
        chains_on::<<A as Future<T>>::Output, B, F, G, C, H>(first, second, both),
        runs_through(start, first, second),
        is_determined(start, wakers),
        polled_through(states, wakers, outs),
        states.first() == start,
        polled_through(others, wakers, other_outs),
        others.first() == regrouped(start, both),
    ensures
        outs == other_outs,
{
    law_chaining_is_associative_back(start, others, first, second, both, wakers, other_outs);
    let mapped = others.map_values(
        |state: Chain<A, H, Chain<B, G, C>>| ungrouped(state, first, second),
    );
    assert(mapped.first() == start);
}

} // verus!
