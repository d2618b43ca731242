//! The task that accepts clients and has each of them served by a task of its own.

use crate::exchange::Outcome;
use vstd::prelude::*;

verus! {

/// The address to listen on.
pub fn listen_address() -> (address: &'static str)
    ensures
        address@ == "localhost:3000"@,
{
    "localhost:3000"
}

/// What the listener is told.
#[derive(Clone, Copy, PartialEq, Eq, Structural, Debug)]
pub enum ListenInput {
    /// It is its turn to run.
    Polled,
    /// The attempt to listen on the address, without blocking, has returned.
    Bound(Outcome),
    /// The attempt to register the listening socket with the reactor has returned.
    Registered(Outcome),
    /// An accept has returned.
    Accepted(Outcome),
}

/// What the listener asks for.
#[derive(Clone, Copy, PartialEq, Eq, Structural, Debug)]
pub enum ListenAction {
    /// Listen on the address, without blocking.
    Bind,
    /// Register the listening socket with the reactor.
    Register,
    /// Accept a client.
    Accept,
    /// Spawn a task that serves the accepted client, then return without a result.
    Spawn,
    /// Return without a result.
    Pending,
    /// Give up with the error that the last operation has returned.
    Fail,
}

/// The task that accepts clients. It never comes to an end.
#[derive(Clone, Copy, PartialEq, Eq, Structural, Debug)]
pub enum Main {
    /// The listening socket has still to be set up.
    Start,
    /// Clients are accepted.
    Accept,
}

/// Whether `input` can come in state `state`: a turn to run, the outcome of a step that
/// sets the socket up while it is being set up, or that of an accept once it is.
pub open spec fn expects(state: Main, input: ListenInput) -> bool {
    match input {
        ListenInput::Polled => true,
        ListenInput::Bound(_) | ListenInput::Registered(_) => state is Start,
        ListenInput::Accepted(_) => state is Accept,
    }
}

/// The state after `input`: clients are accepted once the socket is registered.
pub open spec fn next(state: Main, input: ListenInput) -> Main {
    if input == ListenInput::Registered(Outcome::Done) {
        Main::Accept
    } else {
        state
    }
}

/// What the listener asks for after `input`. One poll accepts at most one client.
pub open spec fn action(state: Main, input: ListenInput) -> ListenAction {
    match input {
        ListenInput::Polled => if state is Start {
            ListenAction::Bind
        } else {
            ListenAction::Accept
        },
        ListenInput::Bound(Outcome::Done) => ListenAction::Register,
        ListenInput::Bound(_) => ListenAction::Fail,
        ListenInput::Registered(Outcome::Done) => ListenAction::Accept,
        ListenInput::Registered(_) => ListenAction::Fail,
        ListenInput::Accepted(Outcome::Done) => ListenAction::Spawn,
        ListenInput::Accepted(Outcome::WouldBlock) => ListenAction::Pending,
        ListenInput::Accepted(Outcome::Failed) => ListenAction::Fail,
    }
}

/// A listener that has still to set its socket up.
pub fn listen() -> (res: Main)
    ensures
        res is Start,
{
    Main::Start
}

impl Main {
    /// Takes what has happened and says what to do next. A poll begins with
    /// `ListenInput::Polled` and lasts until an action returns from it.
    pub fn poll(&mut self, input: ListenInput) -> (res: ListenAction)
        requires
            expects(*old(self), input),
        ensures
            *final(self) == next(*old(self), input),
            res == action(*old(self), input),
    {
        match input {
            ListenInput::Polled => match self {
                Main::Start => ListenAction::Bind,
                Main::Accept => ListenAction::Accept,
            },
            ListenInput::Bound(Outcome::Done) => ListenAction::Register,
            ListenInput::Bound(_) => ListenAction::Fail,
            ListenInput::Registered(Outcome::Done) => {
                *self = Main::Accept;
                ListenAction::Accept
            },
            ListenInput::Registered(_) => ListenAction::Fail,
            ListenInput::Accepted(Outcome::Done) => ListenAction::Spawn,
            ListenInput::Accepted(Outcome::WouldBlock) => ListenAction::Pending,
            ListenInput::Accepted(Outcome::Failed) => ListenAction::Fail,
        }
    }
}

/// The state that `inputs` lead to.
pub open spec fn after(state: Main, inputs: Seq<ListenInput>) -> Main
    decreases inputs.len(),
{
    if inputs.len() == 0 {
        state
    } else {
        next(after(state, inputs.drop_last()), inputs.last())
    }
}

/// Whether each of `inputs` can come when its turn does.
pub open spec fn takes(state: Main, inputs: Seq<ListenInput>) -> bool
    decreases inputs.len(),
{
    inputs.len() == 0 || {
        &&& takes(state, inputs.drop_last())
        &&& expects(after(state, inputs.drop_last()), inputs.last())
    }
}

/// The socket is set up once: when it has been registered, the listener never asks to
/// bind or to register again, whatever it is told.
pub proof fn law_sets_up_once(state: Main, inputs: Seq<ListenInput>, last: ListenInput)
    requires
        takes(state, inputs),
        state is Accept,
        expects(after(state, inputs), last),
    ensures
        after(state, inputs) is Accept,
        !(action(after(state, inputs), last) is Bind),
        !(action(after(state, inputs), last) is Register),
    decreases inputs.len(),
{
    if inputs.len() > 0 {
        law_sets_up_once(state, inputs.drop_last(), inputs.last());
    }
}

/// Each accepted client gets a task, and nothing else does.
pub proof fn law_one_task_per_client(state: Main, input: ListenInput)
    requires
        expects(state, input),
    ensures
        action(state, input) is Spawn <==> input == ListenInput::Accepted(Outcome::Done),
{
}

/// Whether one of `inputs` says that the socket has been registered.
pub open spec fn is_set_up(inputs: Seq<ListenInput>) -> bool
    decreases inputs.len(),
{
    inputs.len() > 0 && (is_set_up(inputs.drop_last()) || inputs.last() == ListenInput::Registered(
        Outcome::Done,
    ))
}

/// Clients are accepted from the moment on in which the socket has been registered.
proof fn lemma_accepts_once_set_up(inputs: Seq<ListenInput>)
    ensures
        after(Main::Start, inputs) is Accept <==> is_set_up(inputs),
    decreases inputs.len(),
{
    if inputs.len() > 0 {
        lemma_accepts_once_set_up(inputs.drop_last());
    }
}

/// Over any number of polls, the listener binds in every poll until the socket has been
/// registered, registers exactly a socket that has been bound, and from then on begins
/// every poll with an accept. It spawns a task exactly for a client that has been accepted,
/// waits exactly if there is none, and fails exactly if an operation has not succeeded.
pub proof fn law_listener_sets_up_then_accepts(inputs: Seq<ListenInput>)
    requires
        inputs.len() > 0,
        takes(Main::Start, inputs),
    ensures
        ({
            let act = action(after(Main::Start, inputs.drop_last()), inputs.last());
            let last = inputs.last();
            &&& act is Bind <==> last is Polled && !is_set_up(inputs)
            &&& act is Register <==> last == ListenInput::Bound(Outcome::Done)
            &&& act is Accept <==> {
                ||| last is Polled && is_set_up(inputs)
                ||| last == ListenInput::Registered(Outcome::Done)
            }
            &&& act is Spawn <==> last == ListenInput::Accepted(Outcome::Done)
            &&& act is Pending <==> last == ListenInput::Accepted(Outcome::WouldBlock)
            &&& act is Fail <==> {
                ||| last == ListenInput::Bound(Outcome::WouldBlock)
                ||| last == ListenInput::Bound(Outcome::Failed)
                ||| last == ListenInput::Registered(Outcome::WouldBlock)
                ||| last == ListenInput::Registered(Outcome::Failed)
                ||| last == ListenInput::Accepted(Outcome::Failed)
            }
        }),
{
    lemma_accepts_once_set_up(inputs.drop_last());
}

/// Whatever comes of the operation that the listener asks for can be told to it next.
pub proof fn law_takes_what_was_asked_for(state: Main, input: ListenInput, outcome: Outcome)
    requires
        expects(state, input),
    ensures
        expects(next(state, input), ListenInput::Polled),
        match action(state, input) {
            ListenAction::Bind => expects(next(state, input), ListenInput::Bound(outcome)),
            ListenAction::Register => expects(next(state, input), ListenInput::Registered(outcome)),
            ListenAction::Accept => expects(next(state, input), ListenInput::Accepted(outcome)),
            _ => true,
        },
{
}

} // verus!
