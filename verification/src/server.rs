//! A server that goes round its connections and gives each a try, without a reactor.

use crate::exchange::{Outcome, ReadOutcome, Report, ReportView, WriteOutcome};
use crate::http::{lemma_response_len, response, RESPONSE_LEN};
use vstd::prelude::*;

verus! {

/// Where the exchange with one client stands.
pub enum ConnectionState {
    /// The request is being read into `request`, `read` bytes of which are filled.
    Read { request: Vec<u8>, read: usize },
    /// The answer is being sent; `written` bytes of it are gone.
    Write { written: usize },
    /// The answer is sent and has to be flushed.
    Flush,
}

/// The state of a connection, with the request as a sequence of bytes.
#[verifier::ext_equal]
pub enum ConnectionView {
    Read { request: Seq<u8>, read: nat },
    Write { written: nat },
    Flush,
}

impl View for ConnectionState {
    type V = ConnectionView;

    open spec fn view(&self) -> ConnectionView {
        match self {
            ConnectionState::Read { request, read } => ConnectionView::Read {
                request: request@,
                read: *read as nat,
            },
            ConnectionState::Write { written } => ConnectionView::Write {
                written: *written as nat,
            },
            ConnectionState::Flush => ConnectionView::Flush,
        }
    }
}

/// What came of an accept.
pub enum AcceptOutcome<C> {
    /// A client has connected.
    Connection(C),
    /// No client is waiting.
    WouldBlock,
    /// The accept failed.
    Failed,
}

/// What the server is told.
pub enum ServerInput<C> {
    /// An accept has returned.
    Accepted(AcceptOutcome<C>),
    /// A read from the connection being visited has returned.
    Read(ReadOutcome),
    /// A write to the connection being visited has returned.
    Wrote(WriteOutcome),
    /// A flush of the connection being visited has returned.
    Flushed(Outcome),
}

/// What the server asks for.
#[derive(Clone, Copy, PartialEq, Eq, Structural, Debug)]
pub enum ServerAction {
    /// Accept a client.
    Accept,
    /// Read at most `limit` bytes from connection `index`.
    Read { index: usize, limit: usize },
    /// Write the answer from position `from` on to connection `index`.
    Write { index: usize, from: usize },
    /// Flush connection `index`.
    Flush { index: usize },
    /// Drop the completed connections.
    Remove,
    /// Give up with the error that the last operation has returned.
    Fail,
}

/// What the server answers to an input: first the report, then the action.
pub struct ServerStep {
    pub report: Report,
    pub action: ServerAction,
}

/// How far the current round has come.
#[derive(Clone, Copy, PartialEq, Eq, Structural, Debug)]
pub enum Phase {
    /// A client may be accepted.
    Accepting,
    /// The connection of that index is being given its try.
    Visiting(usize),
    /// All connections have had their try.
    Removing,
}

/// The connections, each with what the caller keeps of it.
pub struct Server<C> {
    pub connections: Vec<(C, ConnectionState)>,
    /// Indices of the connections to drop at the end of the round.
    pub completed: Vec<usize>,
    pub phase: Phase,
}

/// The server with the states of its connections as views.
#[verifier::ext_equal]
pub struct ServerView<C> {
    pub connections: Seq<(C, ConnectionView)>,
    pub completed: Seq<usize>,
    pub phase: Phase,
}

impl<C> View for Server<C> {
    type V = ServerView<C>;

    open spec fn view(&self) -> ServerView<C> {
        ServerView {
            connections: self.connections@.map_values(
                |entry: (C, ConnectionState)| (entry.0, entry.1@),
            ),
            completed: self.completed@,
            phase: self.phase,
        }
    }
}

/// `request` with `data` written over it from position `at` on.
pub open spec fn overwritten(request: Seq<u8>, at: int, data: Seq<u8>) -> Seq<u8> {
    request.take(at) + data + request.skip(at + data.len())
}

impl ConnectionView {
    /// No more has been read than there is room for, nor written than there is to send.
    pub open spec fn wf(self) -> bool {
        match self {
            ConnectionView::Read { request, read } => {
                &&& read <= request.len()
                &&& request.len() <= usize::MAX
            },
            ConnectionView::Write { written } => written <= RESPONSE_LEN,
            ConnectionView::Flush => true,
        }
    }

    /// The operation that carries the exchange on.
    pub open spec fn wants(self, index: usize) -> ServerAction {
        match self {
            ConnectionView::Read { request, read } => ServerAction::Read {
                index,
                limit: (request.len() - read) as usize,
            },
            ConnectionView::Write { written } => ServerAction::Write {
                index,
                from: written as usize,
            },
            ConnectionView::Flush => ServerAction::Flush { index },
        }
    }

    /// Whether `input` can be the outcome of that operation: it moves no more bytes than
    /// asked for.
    pub open spec fn expects<C>(self, input: ServerInput<C>) -> bool {
        match (self, input) {
            (ConnectionView::Read { request, read }, ServerInput::Read(outcome)) =>
                outcome matches ReadOutcome::Data(data) ==> read + data@.len() <= request.len(),
            (ConnectionView::Write { written }, ServerInput::Wrote(outcome)) =>
                outcome matches WriteOutcome::Count(n) ==> written + n <= RESPONSE_LEN,
            (ConnectionView::Flush, ServerInput::Flushed(_)) => true,
            _ => false,
        }
    }

    /// The state once the bytes that `input` speaks of have been moved.
    pub open spec fn progressed<C>(self, input: ServerInput<C>) -> ConnectionView {
        match (self, input) {
            (
                ConnectionView::Read { request, read },
                ServerInput::Read(ReadOutcome::Data(data)),
            ) => ConnectionView::Read {
                request: overwritten(request, read as int, data@),
                read: read + data@.len(),
            },
            (ConnectionView::Write { written }, ServerInput::Wrote(WriteOutcome::Count(n))) =>
                if n > 0 && written + n == RESPONSE_LEN {
                    ConnectionView::Flush
                } else {
                    ConnectionView::Write { written: (written + n) as nat }
                },
            _ => self,
        }
    }

    /// The bytes that `input` says have arrived.
    pub open spec fn arriving<C>(self, input: ServerInput<C>) -> Seq<u8> {
        match (self, input) {
            (ConnectionView::Read { .. }, ServerInput::Read(ReadOutcome::Data(data))) => data@,
            _ => Seq::empty(),
        }
    }

    /// The bytes that `input` says are gone: the next ones of the answer.
    pub open spec fn leaving<C>(self, input: ServerInput<C>) -> Seq<u8> {
        match (self, input) {
            (ConnectionView::Write { written }, ServerInput::Wrote(WriteOutcome::Count(n))) =>
                response().subrange(written as int, written + n),
            _ => Seq::empty(),
        }
    }

    /// The state that `inputs` lead to, in whatever rounds they come.
    pub open spec fn after<C>(self, inputs: Seq<ServerInput<C>>) -> ConnectionView
        decreases inputs.len(),
    {
        if inputs.len() == 0 {
            self
        } else {
            self.after(inputs.drop_last()).progressed(inputs.last())
        }
    }

    /// Whether each of `inputs` can come when its turn does.
    pub open spec fn takes<C>(self, inputs: Seq<ServerInput<C>>) -> bool
        decreases inputs.len(),
    {
        inputs.len() == 0 || {
            &&& self.takes(inputs.drop_last())
            &&& self.after(inputs.drop_last()).expects(inputs.last())
        }
    }

    /// All bytes that have arrived in the course of `inputs`.
    pub open spec fn arrived<C>(self, inputs: Seq<ServerInput<C>>) -> Seq<u8>
        decreases inputs.len(),
    {
        if inputs.len() == 0 {
            Seq::empty()
        } else {
            self.arrived(inputs.drop_last()) + self.after(inputs.drop_last()).arriving(
                inputs.last(),
            )
        }
    }

    /// All bytes that are gone in the course of `inputs`.
    pub open spec fn departed<C>(self, inputs: Seq<ServerInput<C>>) -> Seq<u8>
        decreases inputs.len(),
    {
        if inputs.len() == 0 {
            Seq::empty()
        } else {
            self.departed(inputs.drop_last()) + self.after(inputs.drop_last()).leaving(
                inputs.last(),
            )
        }
    }
}

impl<C> ServerView<C> {
    /// Every connection is in order, and the one being visited is there.
    pub open spec fn wf(self) -> bool {
        &&& forall|i: int| 0 <= i < self.connections.len() ==> (#[trigger] self.connections[i]).1.wf()
        &&& self.connections.len() <= usize::MAX
        &&& self.phase matches Phase::Visiting(i) ==> i < self.connections.len()
    }

    /// Whether `input` can come now: it is the outcome of the operation asked for, which
    /// moves no more bytes than asked for.
    pub open spec fn expects(self, input: ServerInput<C>) -> bool {
        match (self.phase, input) {
            (Phase::Accepting, ServerInput::Accepted(_)) => true,
            (Phase::Visiting(i), _) => self.connections[i as int].1.expects(input),
            _ => false,
        }
    }

    /// What the server asks for as things stand.
    pub open spec fn asks(self) -> ServerAction {
        match self.phase {
            Phase::Accepting => ServerAction::Accept,
            Phase::Visiting(i) => self.connections[i as int].1.wants(i),
            Phase::Removing => ServerAction::Remove,
        }
    }

    /// The round goes on with connection `i`, or ends if there is none.
    pub open spec fn moved_on(self, i: int) -> ServerView<C> {
        ServerView {
            phase: if i < self.connections.len() {
                Phase::Visiting(i as usize)
            } else {
                Phase::Removing
            },
            ..self
        }
    }

    /// Connection `i` is to be dropped at the end of the round.
    pub open spec fn marked(self, i: usize) -> ServerView<C> {
        ServerView { completed: self.completed.push(i), ..self }
    }

    /// Connection `i` has come to `state`.
    pub open spec fn advanced(self, i: usize, state: ConnectionView) -> ServerView<C> {
        let entry = (self.connections[i as int].0, state);
        ServerView { connections: self.connections.update(i as int, entry), ..self }
    }
}

/// The server after `input`. A client joins at the end, with nothing read and no room to
/// read into, and the round begins with the first connection. A read that moves nothing
/// marks its connection and is tried again; a write that moves nothing and a completed
/// flush mark it and end its try; an operation that cannot be done now ends the try.
pub open spec fn next<C>(server: ServerView<C>, input: ServerInput<C>) -> ServerView<C> {
    match (server.phase, input) {
        (Phase::Accepting, ServerInput::Accepted(AcceptOutcome::Connection(client))) => {
            let state = ConnectionView::Read { request: Seq::empty(), read: 0 };
            ServerView {
                connections: server.connections.push((client, state)),
                completed: Seq::empty(),
                phase: server.phase,
            }.moved_on(0)
        },
        (Phase::Accepting, ServerInput::Accepted(AcceptOutcome::WouldBlock)) => ServerView {
            completed: Seq::empty(),
            ..server
        }.moved_on(0),
        (Phase::Visiting(i), ServerInput::Read(ReadOutcome::Data(data))) => if data@.len() == 0 {
            server.marked(i)
        } else {
            server.advanced(i, server.connections[i as int].1.progressed(input))
        },
        (Phase::Visiting(i), ServerInput::Wrote(WriteOutcome::Count(n))) => if n == 0 {
            server.marked(i).moved_on(i + 1)
        } else {
            server.advanced(i, server.connections[i as int].1.progressed(input))
        },
        (Phase::Visiting(i), ServerInput::Flushed(Outcome::Done)) => server.marked(i).moved_on(
            i + 1,
        ),
        (Phase::Visiting(i), ServerInput::Read(ReadOutcome::WouldBlock)) => server.moved_on(i + 1),
        (Phase::Visiting(i), ServerInput::Wrote(WriteOutcome::WouldBlock)) => server.moved_on(
            i + 1,
        ),
        (Phase::Visiting(i), ServerInput::Flushed(Outcome::WouldBlock)) => server.moved_on(i + 1),
        _ => server,
    }
}

/// Whether `input` is an operation that has failed for good.
pub open spec fn fails<C>(input: ServerInput<C>) -> bool {
    match input {
        ServerInput::Accepted(outcome) => outcome is Failed,
        ServerInput::Read(outcome) => outcome is Failed,
        ServerInput::Wrote(outcome) => outcome is Failed,
        ServerInput::Flushed(outcome) => outcome is Failed,
    }
}

/// Whether `input` is a read or a write that moved nothing.
pub open spec fn disconnects<C>(input: ServerInput<C>) -> bool {
    match input {
        ServerInput::Read(ReadOutcome::Data(data)) => data@.len() == 0,
        ServerInput::Wrote(WriteOutcome::Count(n)) => n == 0,
        _ => false,
    }
}

/// What the server reports after `input`: a client that is gone.
pub open spec fn report<C>(input: ServerInput<C>) -> ReportView {
    if disconnects(input) {
        ReportView::Disconnected { line: "client disconnected unexpectedly"@ }
    } else {
        ReportView::Nothing
    }
}

/// What the server asks for after `input`.
pub open spec fn action<C>(server: ServerView<C>, input: ServerInput<C>) -> ServerAction {
    if fails(input) {
        ServerAction::Fail
    } else {
        next(server, input).asks()
    }
}

/// `items` without those at `indices`, which are taken out one by one, the last first.
pub open spec fn remove_all<A>(items: Seq<A>, indices: Seq<usize>) -> Seq<A>
    decreases indices.len(),
{
    if indices.len() == 0 {
        items
    } else {
        remove_all(items.remove(indices.last() as int), indices.drop_last())
    }
}

/// Whether each index is in range when its turn to be taken out comes.
pub open spec fn removable(len: int, indices: Seq<usize>) -> bool {
    forall|k: int|
        0 <= k < indices.len() ==> #[trigger] indices[k] < len - (indices.len() - 1 - k)
}

impl<C> Server<C> {
    /// A server without connections.
    pub fn new() -> (res: Server<C>)
        ensures
            res@.wf(),
            res@ == (ServerView::<C> {
                connections: Seq::empty(),
                completed: Seq::empty(),
                phase: Phase::Accepting,
            }),
    {
        Server { connections: Vec::new(), completed: Vec::new(), phase: Phase::Accepting }
    }

    /// What the server asks for as things stand.
    pub fn asked(&self) -> (res: ServerAction)
        requires
            self@.wf(),
        ensures
            res == self@.asks(),
    {
        match self.phase {
            Phase::Accepting => ServerAction::Accept,
            Phase::Visiting(index) => {
                assert(self@.connections[index as int].1.wf());
                match &self.connections[index].1 {
                    ConnectionState::Read { request, read } => ServerAction::Read {
                        index,
                        limit: request.len() - *read,
                    },
                    ConnectionState::Write { written } => ServerAction::Write {
                        index,
                        from: *written,
                    },
                    ConnectionState::Flush => ServerAction::Flush { index },
                }
            },
            Phase::Removing => ServerAction::Remove,
        }
    }

    /// Goes on with connection `i`, or ends the round if there is none.
    fn move_on(&mut self, i: usize)
        ensures
            final(self)@ == old(self)@.moved_on(i as int),
    {
        self.phase = if i < self.connections.len() {
            Phase::Visiting(i)
        } else {
            Phase::Removing
        };
    }

    /// Takes what has happened and says what to do next. A round begins with an accept.
    pub fn proceed(&mut self, input: ServerInput<C>) -> (step: ServerStep)
        requires
            old(self)@.wf(),
            old(self)@.expects(input),
        ensures
            final(self)@.wf(),
            final(self)@ == next(old(self)@, input),
            step.action == action(old(self)@, input),
            step.report@ == report(input),
    {
        let ghost before = self@;
        let mut report = Report::Nothing;
        match self.phase {
            Phase::Accepting => {
                match input {
                    ServerInput::Accepted(AcceptOutcome::Connection(client)) => {
                        let state = ConnectionState::Read { request: Vec::new(), read: 0 };
                        self.connections.push((client, state));
                        self.completed = Vec::new();
                        assert(self@.connections =~= before.connections.push(
                            (client, ConnectionView::Read { request: Seq::empty(), read: 0 }),
                        ));
                        self.move_on(0);
                    },
                    ServerInput::Accepted(AcceptOutcome::WouldBlock) => {
                        self.completed = Vec::new();
                        self.move_on(0);
                    },
                    _ => {
                        return ServerStep { report, action: ServerAction::Fail };
                    },
                }
            },
            Phase::Visiting(i) => {
                assert(before.connections[i as int].1.wf());
                assert(i < self.connections.len());
                match input {
                    ServerInput::Read(ReadOutcome::Data(data)) => {
                        if data.len() == 0 {
                            report = Report::Disconnected {
                                line: "client disconnected unexpectedly",
                            };
                            self.completed.push(i);
                        } else {
                            if let ConnectionState::Read { request, read } =
                                &mut self.connections[i].1 {
                                overwrite(request, *read, data.as_slice());
                                *read = *read + data.len();
                            }
                        }
                    },
                    ServerInput::Wrote(WriteOutcome::Count(n)) => {
                        if n == 0 {
                            report = Report::Disconnected {
                                line: "client disconnected unexpectedly",
                            };
                            self.completed.push(i);
                            self.move_on(i + 1);
                        } else {
                            let mut sent = false;
                            if let ConnectionState::Write { written } = &mut self.connections[i].1 {
                                *written = *written + n;
                                sent = *written == RESPONSE_LEN;
                            }
                            if sent {
                                self.connections[i].1 = ConnectionState::Flush;
                            }
                        }
                    },
                    ServerInput::Flushed(Outcome::Done) => {
                        self.completed.push(i);
                        self.move_on(i + 1);
                    },
                    ServerInput::Read(ReadOutcome::WouldBlock)
                    | ServerInput::Wrote(WriteOutcome::WouldBlock)
                    | ServerInput::Flushed(Outcome::WouldBlock) => {
                        self.move_on(i + 1);
                    },
                    _ => {
                        return ServerStep { report, action: ServerAction::Fail };
                    },
                }
            },
            Phase::Removing => {},
        }
        assert(self@ =~= next(before, input));
        assert(self@.connections.len() == self.connections.len());
        ServerStep { report, action: self.asked() }
    }

    /// Tells whether each completed connection is there to be dropped when its turn
    /// comes.
    pub fn can_remove(&self) -> (res: bool)
        ensures
            res == removable(self@.connections.len() as int, self@.completed),
    {
        let mut k: usize = 0;
        while k < self.completed.len()
            invariant
                k <= self.completed.len(),
                forall|j: int|
                    0 <= j < k ==> #[trigger] self.completed@[j] < self.connections@.len() - (
                    self.completed@.len() - 1 - j),
            decreases self.completed.len() - k,
        {
            let later: usize = self.completed.len() - 1 - k;
            let len: usize = self.connections.len();
            if later >= len || self.completed[k] >= len - later {
                assert(!(self.completed@[k as int] < self.connections@.len() - (
                self.completed@.len() - 1 - k)));
                return false;
            }
            k = k + 1;
        }
        true
    }

    /// Ends the round: drops the completed connections, the last first, and asks for
    /// the next client.
    pub fn remove_completed(&mut self) -> (action: ServerAction)
        requires
            old(self)@.wf(),
            old(self)@.phase is Removing,
            removable(old(self)@.connections.len() as int, old(self)@.completed),
        ensures
            final(self)@.wf(),
            final(self).connections@ == remove_all(
                old(self).connections@,
                old(self).completed@,
            ),
            final(self)@.completed == old(self)@.completed,
            final(self)@.phase is Accepting,
            action is Accept,
    {
        let mut left: usize = self.completed.len();
        let ghost whole = self.connections@;
        let ghost completed = self.completed@;
        assert(completed.take(left as int) =~= completed);
        assert forall|i: int| 0 <= i < self.connections@.len() implies (
        #[trigger] self.connections@[i]).1@.wf() by {
            assert(self@.connections[i].1.wf());
        }
        while left > 0
            invariant
                left <= completed.len(),
                self.completed@ == completed,
                forall|i: int|
                    0 <= i < self.connections@.len() ==> (
                    #[trigger] self.connections@[i]).1@.wf(),
                removable(self.connections@.len() as int, completed.take(left as int)),
                remove_all(self.connections@, completed.take(left as int)) == remove_all(
                    whole,
                    completed,
                ),
            decreases left,
        {
            let ghost todo = completed.take(left as int);
            assert(todo.drop_last() =~= completed.take(left - 1));
            assert(todo[left - 1] == completed[left - 1]);
            assert forall|k: int| 0 <= k < left - 1 implies #[trigger] completed.take(left - 1)[k]
                < self.connections@.len() - 1 - (left - 2 - k) by {
                assert(completed.take(left - 1)[k] == todo[k]);
            }
            left = left - 1;
            self.connections.remove(self.completed[left]);
        }
        self.phase = Phase::Accepting;
        assert(self@.connections.len() == self.connections.len());
        ServerAction::Accept
    }
}

/// Writes `data` over `request` from position `at` on.
fn overwrite(request: &mut Vec<u8>, at: usize, data: &[u8])
    requires
        at + data@.len() <= old(request)@.len(),
    ensures
        final(request)@ == overwritten(old(request)@, at as int, data@),
{
    let ghost whole = request@;
    let mut k: usize = 0;
    while k < data.len()
        invariant
            k <= data.len(),
            at + data@.len() <= whole.len(),
            whole.len() == request.len(),
            request@ == overwritten(whole, at as int, data@.take(k as int)),
        decreases data.len() - k,
    {
        request.set(at + k, data[k]);
        k = k + 1;
        assert(request@ =~= overwritten(whole, at as int, data@.take(k as int)));
    }
    assert(data@.take(k as int) =~= data@);
}

/// Whether `i` is one of `indices`.
pub open spec fn listed(indices: Seq<usize>, i: int) -> bool {
    exists|k: int| 0 <= k < indices.len() && #[trigger] indices[k] == i
}

/// The items whose index is not listed, in order.
pub open spec fn survivors<A>(items: Seq<A>, gone: Seq<usize>) -> Seq<A>
    decreases items.len(),
{
    if items.len() == 0 {
        Seq::empty()
    } else {
        let rest = survivors(items.drop_last(), gone);
        if listed(gone, items.len() - 1) {
            rest
        } else {
            rest.push(items.last())
        }
    }
}

/// Whether `indices` ascend and stay below `bound`: none occurs twice.
pub open spec fn ascending(indices: Seq<usize>, bound: int) -> bool {
    &&& forall|a: int, b: int|
        0 <= a < b < indices.len() ==> #[trigger] indices[a] < #[trigger] indices[b]
    &&& forall|k: int| 0 <= k < indices.len() ==> #[trigger] indices[k] < bound
}

/// Ascending indices leave room for those that go before them.
proof fn lemma_ascending_removable(indices: Seq<usize>, bound: int)
    requires
        ascending(indices, bound),
    ensures
        removable(bound, indices),
    decreases indices.len(),
{
    if indices.len() > 0 {
        let last = indices.last();
        let front = indices.drop_last();
        assert forall|k: int| 0 <= k < front.len() implies #[trigger] front[k] < last by {
            assert(indices[k] < indices[indices.len() - 1]);
        }
        lemma_ascending_removable(front, last as int);
        assert forall|k: int| 0 <= k < indices.len() implies #[trigger] indices[k] < bound - (
        indices.len() - 1 - k) by {
            if k < indices.len() - 1 {
                assert(front[k] == indices[k]);
            }
        }
    }
}

/// An item behind all those that are taken out stays where it is.
proof fn lemma_remove_all_push<A>(items: Seq<A>, item: A, indices: Seq<usize>)
    requires
        removable(items.len() as int, indices),
    ensures
        remove_all(items.push(item), indices) == remove_all(items, indices).push(item),
    decreases indices.len(),
{
    if indices.len() > 0 {
        let i = indices.last() as int;
        let front = indices.drop_last();
        assert(indices[indices.len() - 1] == i);
        assert forall|k: int| 0 <= k < front.len() implies #[trigger] front[k] < items.len() - 1
            - (front.len() - 1 - k) by {
            assert(front[k] == indices[k]);
        }
        assert(items.push(item).remove(i) =~= items.remove(i).push(item));
        lemma_remove_all_push(items.remove(i), item, front);
    }
}

/// Only the indices of the items themselves matter.
proof fn lemma_survivors_agree<A>(items: Seq<A>, gone: Seq<usize>, other: Seq<usize>)
    requires
        forall|i: int| 0 <= i < items.len() ==> listed(gone, i) == listed(other, i),
    ensures
        survivors(items, gone) == survivors(items, other),
    decreases items.len(),
{
    if items.len() > 0 {
        lemma_survivors_agree(items.drop_last(), gone, other);
    }
}

/// Dropping the completed connections keeps all others, in their order, provided that
/// none is marked twice.
pub proof fn law_removal_keeps_the_others<A>(items: Seq<A>, completed: Seq<usize>)
    requires
        ascending(completed, items.len() as int),
    ensures
        removable(items.len() as int, completed),
        remove_all(items, completed) == survivors(items, completed),
    decreases items.len(),
{
    lemma_ascending_removable(completed, items.len() as int);
    if items.len() > 0 {
        let front = items.drop_last();
        let n = items.len() - 1;
        if listed(completed, n) {
            let k = choose|k: int| 0 <= k < completed.len() && #[trigger] completed[k] == n;
            assert(k == completed.len() - 1) by {
                if k < completed.len() - 1 {
                    assert(completed[k] < completed[completed.len() - 1]);
                }
            }
            let rest = completed.drop_last();
            assert(items.remove(n) =~= front);
            assert forall|j: int| 0 <= j < rest.len() implies #[trigger] rest[j] < n by {
                assert(completed[j] < completed[completed.len() - 1]);
            }
            law_removal_keeps_the_others(front, rest);
            assert forall|i: int| 0 <= i < front.len() implies listed(rest, i) == listed(
                completed,
                i,
            ) by {
                if listed(completed, i) {
                    let j = choose|j: int|
                        0 <= j < completed.len() && #[trigger] completed[j] == i;
                    assert(rest[j] == i);
                }
                if listed(rest, i) {
                    let j = choose|j: int| 0 <= j < rest.len() && #[trigger] rest[j] == i;
                    assert(completed[j] == i);
                }
            }
            lemma_survivors_agree(front, rest, completed);
        } else {
            assert forall|k: int| 0 <= k < completed.len() implies #[trigger] completed[k] < n by {
                assert(completed[k] != n);
            }
            lemma_ascending_removable(completed, n);
            assert(front.push(items.last()) =~= items);
            lemma_remove_all_push(front, items.last(), completed);
            law_removal_keeps_the_others(front, completed);
        }
    } else if completed.len() > 0 {
        assert(completed[0] < items.len());
    }
}

/// Whether each connection marked so far in the round is marked once, in the order of
/// the visits, and the one being visited is not.
pub open spec fn marked_once<C>(server: ServerView<C>) -> bool {
    match server.phase {
        Phase::Accepting => true,
        Phase::Visiting(i) => ascending(server.completed, i as int),
        Phase::Removing => ascending(server.completed, server.connections.len() as int),
    }
}

/// As long as no read has come back empty, every connection is marked at most once in
/// a round.
pub proof fn law_connections_are_marked_once<C>(server: ServerView<C>, input: ServerInput<C>)
    requires
        server.wf(),
        server.expects(input),
        marked_once(server),
        !(input is Read && disconnects(input)),
    ensures
        marked_once(next(server, input)),
{
}

/// Over any number of rounds, a connection is sent the answer in order: what is gone,
/// from the beginning of the answer on, is as much of it as its state says, without a gap
/// or a repetition, and all of it once it comes to the flush.
pub proof fn law_answer_is_in_order<C>(inputs: Seq<ServerInput<C>>)
    requires
        (ConnectionView::Write { written: 0 }).takes(inputs),
    ensures
        ({
            let start = ConnectionView::Write { written: 0 };
            match start.after(inputs) {
                ConnectionView::Read { .. } => false,
                ConnectionView::Write { written } => {
                    &&& written < RESPONSE_LEN
                    &&& start.departed(inputs) == response().take(written as int)
                },
                ConnectionView::Flush => start.departed(inputs) == response(),
            }
        }),
    decreases inputs.len(),
{
    let start = ConnectionView::Write { written: 0 };
    lemma_response_len();
    if inputs.len() == 0 {
        assert(response().take(0) =~= Seq::empty());
    } else {
        let before = inputs.drop_last();
        law_answer_is_in_order(before);
        let departed = start.departed(before);
        assert(departed + Seq::<u8>::empty() =~= departed);
        assert(start.after(before).expects(inputs.last()));
        match (start.after(before), inputs.last()) {
            (ConnectionView::Write { written }, ServerInput::Wrote(WriteOutcome::Count(n))) => {
                assert(response().take(written as int) + response().subrange(
                    written as int,
                    written + n,
                ) =~= response().take(written + n));
                assert(response().take(RESPONSE_LEN as int) =~= response());
            },
            _ => {},
        }
    }
}

/// Over any number of rounds, the bytes that arrive fill the room for the request in
/// order, from where it was filled to; the room does not grow, and what was in it before
/// stays.
pub proof fn law_request_is_in_order<C>(
    request: Seq<u8>,
    read: nat,
    inputs: Seq<ServerInput<C>>,
)
    requires
        read <= request.len(),
        (ConnectionView::Read { request, read }).takes(inputs),
    ensures
        ({
            let start = ConnectionView::Read { request, read };
            let arrived = start.arrived(inputs);
            start.after(inputs) matches ConnectionView::Read { request: later, read: filled } && {
                &&& filled == read + arrived.len()
                &&& filled <= request.len()
                &&& later == overwritten(request, read as int, arrived)
                &&& start.departed(inputs).len() == 0
            }
        }),
    decreases inputs.len(),
{
    let start = ConnectionView::Read { request, read };
    if inputs.len() == 0 {
        assert(overwritten(request, read as int, Seq::empty()) =~= request);
    } else {
        let before = inputs.drop_last();
        law_request_is_in_order(request, read, before);
        let arrived = start.arrived(before);
        assert(start.after(before).expects(inputs.last()));
        match inputs.last() {
            ServerInput::Read(ReadOutcome::Data(data)) => {
                assert(overwritten(
                    overwritten(request, read as int, arrived),
                    (read + arrived.len()) as int,
                    data@,
                ) =~= overwritten(request, read as int, arrived + data@));
            },
            _ => {
                assert(arrived + Seq::<u8>::empty() =~= arrived);
            },
        }
    }
}

/// What the server does with the connection being visited is what these laws speak of.
pub proof fn law_visit_progresses_its_connection<C>(
    server: ServerView<C>,
    input: ServerInput<C>,
    i: usize,
)
    requires
        server.wf(),
        server.expects(input),
        server.phase == Phase::Visiting(i),
    ensures
        server.connections[i as int].1.expects(input),
        next(server, input).connections[i as int].1
            == server.connections[i as int].1.progressed(input),
{
    let state = server.connections[i as int].1;
    if let (ConnectionView::Read { request, read }, ServerInput::Read(ReadOutcome::Data(data))) = (
        state,
        input,
    ) {
        assert(state.wf());
        assert(data@.len() == 0 ==> overwritten(request, read as int, data@) =~= request);
    }
}

/// The connections have their tries one after the other: an input touches none but the
/// one being visited, and the round then stays there or goes on to the next one.
pub proof fn law_visits_are_in_order<C>(server: ServerView<C>, input: ServerInput<C>, i: usize)
    requires
        server.wf(),
        server.expects(input),
        server.phase == Phase::Visiting(i),
    ensures
        next(server, input).connections.len() == server.connections.len(),
        forall|j: int|
            0 <= j < server.connections.len() && j != i ==> #[trigger] next(
                server,
                input,
            ).connections[j] == server.connections[j],
        next(server, input).connections[i as int].0 == server.connections[i as int].0,
        next(server, input).phase == server.phase || next(server, input).phase
            == server.moved_on(i + 1).phase,
{
}

/// A try that cannot go on changes nothing about its connection.
pub proof fn law_blocked_try_is_resumed<C>(server: ServerView<C>, input: ServerInput<C>, i: usize)
    requires
        server.wf(),
        server.expects(input),
        server.phase == Phase::Visiting(i),
        input == ServerInput::<C>::Read(ReadOutcome::WouldBlock) || input
            == ServerInput::<C>::Wrote(WriteOutcome::WouldBlock) || input
            == ServerInput::<C>::Flushed(Outcome::WouldBlock),
    ensures
        next(server, input) == server.moved_on(i + 1),
        next(server, input).connections == server.connections,
        next(server, input).completed == server.completed,
{
}

/// A client that is accepted joins behind all others: every connection that there was is
/// still there, in its place and in its state, and the new one has nothing read and no room
/// to read into. If no client is waiting, the connections are what they were. Either way
/// none is marked, and the round begins with the first connection, if there is one. If the
/// accept has failed, nothing changes.
pub proof fn law_accepted_client_joins_the_others<C>(
    server: ServerView<C>,
    outcome: AcceptOutcome<C>,
)
    requires
        server.phase is Accepting,
    ensures
        ({
            let later = next(server, ServerInput::Accepted(outcome));
            let n = server.connections.len() as int;
            match outcome {
                AcceptOutcome::Connection(client) => {
                    &&& later.connections.len() == n + 1
                    &&& forall|j: int|
                        0 <= j < n ==> #[trigger] later.connections[j] == server.connections[j]
                    &&& later.connections[n].0 == client
                    &&& later.connections[n].1 matches ConnectionView::Read { request, read }
                    &&& request.len() == 0
                    &&& read == 0
                    &&& later.completed.len() == 0
                    &&& later.phase == Phase::Visiting(0)
                },
                AcceptOutcome::WouldBlock => {
                    &&& later.connections == server.connections
                    &&& later.completed.len() == 0
                    &&& n > 0 ==> later.phase == Phase::Visiting(0)
                    &&& n == 0 ==> later.phase is Removing
                },
                AcceptOutcome::Failed => later == server,
            }
        }),
{
}

/// The outcome of a try decides what becomes of it, whichever connection is visited and
/// whatever its state. The connection is marked, behind those marked before, exactly if a
/// read or a write has moved nothing or the flush is done. Its try is over exactly if the
/// operation cannot be done now, a write has moved nothing or the flush is done; the next
/// connection is then visited, or the round is over if it was the last.
pub proof fn law_outcome_decides_the_try<C>(server: ServerView<C>, input: ServerInput<C>, i: usize)
    requires
        server.wf(),
        server.expects(input),
        server.phase == Phase::Visiting(i),
    ensures
        ({
            let later = next(server, input);
            let blocked = {
                ||| input == ServerInput::<C>::Read(ReadOutcome::WouldBlock)
                ||| input == ServerInput::<C>::Wrote(WriteOutcome::WouldBlock)
                ||| input == ServerInput::<C>::Flushed(Outcome::WouldBlock)
            };
            let read_nothing = input matches ServerInput::Read(ReadOutcome::Data(data))
                && data@.len() == 0;
            let wrote_nothing = input == ServerInput::<C>::Wrote(WriteOutcome::Count(0));
            let flushed = input == ServerInput::<C>::Flushed(Outcome::Done);
            let marked = read_nothing || wrote_nothing || flushed;
            let over = blocked || wrote_nothing || flushed;
            &&& later.completed.len() == server.completed.len() + if marked {
                1int
            } else {
                0
            }
            &&& marked ==> later.completed.last() == i
            &&& forall|k: int|
                0 <= k < server.completed.len() ==> #[trigger] later.completed[k]
                    == server.completed[k]
            &&& !over ==> later.phase == Phase::Visiting(i)
            &&& over && i + 1 < server.connections.len() ==> later.phase == Phase::Visiting(
                (i + 1) as usize,
            )
            &&& over && i + 1 == server.connections.len() ==> later.phase is Removing
        }),
{
}

/// A try concerns its own connection alone. Bytes that arrive go where those that arrived
/// before end, and all other bytes of the room stay; bytes that are gone are counted on, and
/// the flush is due once the whole answer is gone. An outcome that moves nothing leaves the
/// state as it was.
pub proof fn law_try_moves_its_connection_only<C>(
    server: ServerView<C>,
    input: ServerInput<C>,
    i: usize,
)
    requires
        server.wf(),
        server.expects(input),
        server.phase == Phase::Visiting(i),
    ensures
        ({
            let later = next(server, input).connections;
            let n = server.connections.len() as int;
            let (client, state) = server.connections[i as int];
            &&& later.len() == n
            &&& forall|j: int|
                0 <= j < n && j != i ==> #[trigger] later[j] == server.connections[j]
            &&& later[i as int].0 == client
            &&& match (state, input) {
                (
                    ConnectionView::Read { request, read },
                    ServerInput::Read(ReadOutcome::Data(data)),
                ) => {
                    &&& later[i as int].1 matches ConnectionView::Read { request: room, read: end }
                    &&& end == read + data@.len()
                    &&& room.len() == request.len()
                    &&& forall|k: int|
                        0 <= k < room.len() ==> #[trigger] room[k] == if read <= k < end {
                            data@[k - read]
                        } else {
                            request[k]
                        }
                },
                (
                    ConnectionView::Write { written },
                    ServerInput::Wrote(WriteOutcome::Count(count)),
                ) if count > 0 => match later[i as int].1 {
                    ConnectionView::Write { written: end } => end == written + count && end
                        < response().len(),
                    ConnectionView::Flush => written + count == response().len(),
                    _ => false,
                },
                _ => later[i as int].1 == state,
            }
        }),
{
    lemma_response_len();
    assert(server.connections[i as int].1.wf());
}

/// What is asked for is what the phase and the connection being visited call for: a read
/// into the room that is left, a write that begins behind the last byte that is gone, or
/// the flush, and of no other connection.
pub proof fn law_asks_for_the_connection_visited<C>(server: ServerView<C>)
    requires
        server.wf(),
    ensures
        match server.asks() {
            ServerAction::Accept => server.phase is Accepting,
            ServerAction::Remove => server.phase is Removing,
            ServerAction::Read { index, limit } => {
                &&& server.phase == Phase::Visiting(index)
                &&& server.connections[index as int].1 matches ConnectionView::Read { request, read }
                &&& read + limit == request.len()
            },
            ServerAction::Write { index, from } => {
                &&& server.phase == Phase::Visiting(index)
                &&& server.connections[index as int].1 matches ConnectionView::Write { written }
                &&& from == written
            },
            ServerAction::Flush { index } => {
                &&& server.phase == Phase::Visiting(index)
                &&& server.connections[index as int].1 is Flush
            },
            ServerAction::Fail => false,
        },
{
    if let Phase::Visiting(i) = server.phase {
        assert(server.connections[i as int].1.wf());
    }
}

/// The server gives up exactly on an operation that has failed, and then nothing has
/// changed. Else it asks for what it has come to.
pub proof fn law_gives_up_only_on_failure<C>(server: ServerView<C>, input: ServerInput<C>)
    requires
        server.wf(),
        server.expects(input),
    ensures
        action(server, input) is Fail <==> {
            ||| input == ServerInput::<C>::Accepted(AcceptOutcome::Failed)
            ||| input == ServerInput::<C>::Read(ReadOutcome::Failed)
            ||| input == ServerInput::<C>::Wrote(WriteOutcome::Failed)
            ||| input == ServerInput::<C>::Flushed(Outcome::Failed)
        },
        action(server, input) is Fail ==> next(server, input) == server,
        !(action(server, input) is Fail) ==> action(server, input) == next(server, input).asks(),
{
    if let Phase::Visiting(i) = server.phase {
        assert(server.connections[i as int].1.wf());
    }
}

/// Whatever can come of the operation that the server asks for is expected, and nothing
/// else; while connections are dropped, nothing is.
pub proof fn law_expects_what_was_asked_for<C>(server: ServerView<C>, input: ServerInput<C>)
    requires
        server.wf(),
    ensures
        server.expects(input) <==> match server.asks() {
            ServerAction::Accept => input is Accepted,
            ServerAction::Read { limit, .. } => input matches ServerInput::Read(outcome) && (
            outcome matches ReadOutcome::Data(data) ==> data@.len() <= limit),
            ServerAction::Write { from, .. } => input matches ServerInput::Wrote(outcome) && (
            outcome matches WriteOutcome::Count(n) ==> from + n <= response().len()),
            ServerAction::Flush { .. } => input is Flushed,
            ServerAction::Remove | ServerAction::Fail => false,
        },
{
    lemma_response_len();
    if let Phase::Visiting(i) = server.phase {
        assert(server.connections[i as int].1.wf());
    }
}

/// A client that is gone is reported, and nothing else is.
pub proof fn law_reports_who_is_gone<C>(input: ServerInput<C>)
    ensures
        match report(input) {
            ReportView::Nothing => {
                &&& input matches ServerInput::Read(ReadOutcome::Data(data)) ==> data@.len() > 0
                &&& input != ServerInput::<C>::Wrote(WriteOutcome::Count(0))
            },
            ReportView::Disconnected { line } => {
                &&& line == "client disconnected unexpectedly"@
                &&& {
                    ||| (input matches ServerInput::Read(ReadOutcome::Data(data)) && data@.len()
                        == 0)
                    ||| input == ServerInput::<C>::Wrote(WriteOutcome::Count(0))
                }
            },
            _ => false,
        },
{
}

/// The bytes that reads have brought in the course of `inputs`, one after the other.
pub open spec fn received<C>(inputs: Seq<ServerInput<C>>) -> Seq<u8>
    decreases inputs.len(),
{
    if inputs.len() == 0 {
        Seq::empty()
    } else {
        let before = received(inputs.drop_last());
        match inputs.last() {
            ServerInput::Read(ReadOutcome::Data(data)) => before + data@,
            _ => before,
        }
    }
}

/// How many bytes writes have taken in the course of `inputs`.
pub open spec fn sent<C>(inputs: Seq<ServerInput<C>>) -> nat
    decreases inputs.len(),
{
    if inputs.len() == 0 {
        0
    } else {
        let before = sent(inputs.drop_last());
        match inputs.last() {
            ServerInput::Wrote(WriteOutcome::Count(n)) => before + n as nat,
            _ => before,
        }
    }
}

/// Over any number of rounds, a connection that is being answered is asked to take what it
/// has not been sent: every write begins behind the last byte that is gone, and the flush
/// comes when the whole answer is.
pub proof fn law_write_begins_where_the_last_ended<C>(inputs: Seq<ServerInput<C>>, index: usize)
    requires
        (ConnectionView::Write { written: 0 }).takes(inputs),
    ensures
        match (ConnectionView::Write { written: 0 }).after(inputs).wants(index) {
            ServerAction::Write { index: named, from } => {
                &&& named == index
                &&& from == sent(inputs)
                &&& from < response().len()
            },
            ServerAction::Flush { index: named } => named == index && sent(inputs)
                == response().len(),
            _ => false,
        },
{
    lemma_response_len();
    lemma_written_is_what_was_sent(inputs);
}

/// The count of a connection that is being answered is that of the bytes that are gone.
proof fn lemma_written_is_what_was_sent<C>(inputs: Seq<ServerInput<C>>)
    requires
        (ConnectionView::Write { written: 0 }).takes(inputs),
    ensures
        match (ConnectionView::Write { written: 0 }).after(inputs) {
            ConnectionView::Read { .. } => false,
            ConnectionView::Write { written } => written == sent(inputs) && written < RESPONSE_LEN,
            ConnectionView::Flush => sent(inputs) == RESPONSE_LEN,
        },
    decreases inputs.len(),
{
    if inputs.len() > 0 {
        lemma_written_is_what_was_sent(inputs.drop_last());
        let state = (ConnectionView::Write { written: 0 }).after(inputs.drop_last());
        assert(state.expects(inputs.last()));
    }
}

/// Over any number of rounds, a connection that is being read from has what it has received
/// in its room, in order and from where it was filled to, and every read has the room that
/// is left.
pub proof fn law_read_has_the_room_that_is_left<C>(
    request: Seq<u8>,
    read: nat,
    inputs: Seq<ServerInput<C>>,
    index: usize,
)
    requires
        read <= request.len() <= usize::MAX,
        (ConnectionView::Read { request, read }).takes(inputs),
    ensures
        ({
            let state = (ConnectionView::Read { request, read }).after(inputs);
            let bytes = received(inputs);
            &&& state matches ConnectionView::Read { request: room, read: end }
            &&& end == read + bytes.len()
            &&& room == request.take(read as int) + bytes + request.skip(end as int)
            &&& state.wants(index) matches ServerAction::Read { index: named, limit }
            &&& named == index
            &&& read + bytes.len() + limit == request.len()
        }),
    decreases inputs.len(),
{
    let start = ConnectionView::Read { request, read };
    if inputs.len() == 0 {
        assert(request.take(read as int) + Seq::<u8>::empty() + request.skip(read as int)
            =~= request);
    } else {
        let before = inputs.drop_last();
        law_read_has_the_room_that_is_left(request, read, before, index);
        let bytes = received(before);
        let end: int = (read + bytes.len()) as int;
        let room = request.take(read as int) + bytes + request.skip(end);
        assert(start.after(before).expects(inputs.last()));
        if let ServerInput::Read(ReadOutcome::Data(data)) = inputs.last() {
            assert(room.take(end) + data@ + room.skip(end + data@.len()) =~= request.take(
                read as int,
            ) + (bytes + data@) + request.skip(end + data@.len()));
        }
    }
}

/// Whether a server can go through `states` when it is told `inputs`.
pub open spec fn told_through<C>(
    states: Seq<ServerView<C>>,
    inputs: Seq<ServerInput<C>>,
) -> bool {
    &&& states.len() == inputs.len() + 1
    &&& states[0].wf()
    &&& forall|k: int|
        #![trigger inputs[k]]
        0 <= k < inputs.len() ==> states[k].expects(inputs[k]) && states[k + 1] == next(
            states[k],
            inputs[k],
        )
}

/// Whether connection `i` is visited in one of the first `m` of `states`.
pub open spec fn visited<C>(states: Seq<ServerView<C>>, m: int, i: usize) -> bool {
    exists|k: int| 0 <= k < m && (#[trigger] states[k]).phase == Phase::Visiting(i)
}

/// Every connection gets its try in every round: once the round is over, each of them has
/// been visited since it began. In the course of it, no connection comes or goes, and each
/// stays in its place.
pub proof fn law_round_visits_every_connection<C>(
    states: Seq<ServerView<C>>,
    inputs: Seq<ServerInput<C>>,
    k: int,
    i: usize,
)
    requires
        told_through(states, inputs),
        states[0].phase == Phase::Visiting(0),
        0 <= k < states.len(),
        i < states[0].connections.len(),
    ensures
        states[k].wf(),
        states[k].connections.len() == states[0].connections.len(),
        states[k].connections[i as int].0 == states[0].connections[i as int].0,
        states[k].phase is Removing ==> k == inputs.len() && visited(states, k, i),
        !(states[k].phase is Accepting),
{
    lemma_round_so_far(states, inputs, k, i);
}

/// The same while the round lasts: each connection up to the one being visited has been
/// visited.
proof fn lemma_round_so_far<C>(
    states: Seq<ServerView<C>>,
    inputs: Seq<ServerInput<C>>,
    k: int,
    i: usize,
)
    requires
        told_through(states, inputs),
        states[0].phase == Phase::Visiting(0),
        0 <= k < states.len(),
        i < states[0].connections.len(),
    ensures
        states[k].wf(),
        states[k].connections.len() == states[0].connections.len(),
        states[k].connections[i as int].0 == states[0].connections[i as int].0,
        match states[k].phase {
            Phase::Accepting => false,
            Phase::Visiting(j) => i <= j ==> visited(states, k + 1, i),
            Phase::Removing => k == inputs.len() && visited(states, k, i),
        },
    decreases k,
{
    if k == 0 {
        assert(states[0].phase == Phase::Visiting(0));
    } else {
        lemma_round_so_far(states, inputs, k - 1, i);
        let before = states[k - 1];
        let input = inputs[k - 1];
        assert(before.expects(input) && states[k - 1 + 1] == next(before, input));
        match before.phase {
            Phase::Visiting(j) => {
                law_outcome_decides_the_try(before, input, j);
                law_try_moves_its_connection_only(before, input, j);
                lemma_stays_in_order(before, input, j);
                if i <= j {
                    let v = choose|v: int|
                        0 <= v < k && (#[trigger] states[v]).phase == Phase::Visiting(i);
                    assert(states[v].phase == Phase::Visiting(i));
                } else if let Phase::Visiting(now) = states[k].phase {
                    if i <= now {
                        assert(states[k].phase == Phase::Visiting(i));
                    }
                }
                if states[k].phase is Removing && k < inputs.len() {
                    assert(states[k].expects(inputs[k]));
                }
            },
            _ => {},
        }
    }
}

/// An input that is expected keeps every connection in order.
proof fn lemma_stays_in_order<C>(server: ServerView<C>, input: ServerInput<C>, i: usize)
    requires
        server.wf(),
        server.expects(input),
        server.phase == Phase::Visiting(i),
    ensures
        next(server, input).wf(),
{
    let later = next(server, input);
    assert(server.connections[i as int].1.wf());
    assert forall|j: int| 0 <= j < later.connections.len() implies (
    #[trigger] later.connections[j]).1.wf() by {
        assert(server.connections[j].1.wf());
    }
}

/// At the end of a round, a connection that was not marked stays, in its state, moved up by
/// as many places as there were marked ones in front of it, and exactly the marked ones are
/// gone. `k` is how many marked ones are in front of connection `i`. This holds as long as
/// none is marked twice.
pub proof fn law_unmarked_connection_stays<A>(
    items: Seq<A>,
    completed: Seq<usize>,
    i: int,
    k: int,
)
    requires
        ascending(completed, items.len() as int),
        0 <= i < items.len(),
        0 <= k <= completed.len(),
        k > 0 ==> completed[k - 1] < i,
        k < completed.len() ==> i < completed[k],
    ensures
        remove_all(items, completed).len() == items.len() - completed.len(),
        0 <= i - k < items.len() - completed.len(),
        remove_all(items, completed)[i - k] == items[i],
    decreases completed.len(),
{
    if completed.len() > 0 {
        let m = completed.last() as int;
        let front = completed.drop_last();
        assert(completed[completed.len() - 1] == m);
        let rest = items.remove(m);
        assert forall|a: int, b: int| 0 <= a < b < front.len() implies #[trigger] front[a]
            < #[trigger] front[b] by {
            assert(completed[a] < completed[b]);
        }
        assert forall|a: int| 0 <= a < front.len() implies #[trigger] front[a] < rest.len() by {
            assert(completed[a] < completed[completed.len() - 1]);
        }
        if k == completed.len() {
            assert(rest[i - 1] == items[i]);
            if k > 1 {
                assert(completed[k - 2] < completed[k - 1]);
            }
            law_unmarked_connection_stays(rest, front, i - 1, k - 1);
        } else {
            if k < completed.len() - 1 {
                assert(completed[k] < completed[completed.len() - 1]);
            }
            assert(rest[i] == items[i]);
            law_unmarked_connection_stays(rest, front, i, k);
        }
    }
}

/// Marked connections are dropped from the last mark to the first, each from the place that
/// the mark names: what is behind it moves up, and what is in front of it stays. They can be
/// dropped if and only if that place is there when its turn comes. This holds also where a
/// connection is marked more than once.
pub proof fn law_last_mark_goes_first<A>(items: Seq<A>, completed: Seq<usize>, i: usize)
    ensures
        remove_all(items, Seq::<usize>::empty()) == items,
        removable(items.len() as int, Seq::<usize>::empty()),
        removable(items.len() as int, completed.push(i)) <==> i < items.len() && removable(
            items.len() - 1,
            completed,
        ),
        i < items.len() ==> remove_all(items, completed.push(i)) == remove_all(
            items.take(i as int) + items.skip(i + 1),
            completed,
        ),
{
    let all = completed.push(i);
    assert(all.drop_last() =~= completed);
    if removable(items.len() as int, all) {
        assert(all[completed.len() as int] < items.len());
        assert forall|k: int| 0 <= k < completed.len() implies #[trigger] completed[k]
            < items.len() - 1 - (completed.len() - 1 - k) by {
            assert(all[k] < items.len() - (all.len() - 1 - k));
        }
    }
    if i < items.len() {
        if removable(items.len() - 1, completed) {
            assert forall|k: int| 0 <= k < all.len() implies #[trigger] all[k] < items.len() - (
            all.len() - 1 - k) by {
                if k < completed.len() {
                    assert(completed[k] < items.len() - 1 - (completed.len() - 1 - k));
                }
            }
        }
        assert(items.remove(i as int) =~= items.take(i as int) + items.skip(i + 1));
    }
}

/// Whether `input` says that the exchange with the connection being visited is over: a read
/// or a write has moved nothing, or the answer is flushed.
pub open spec fn finishes<C>(input: ServerInput<C>) -> bool {
    ||| (input matches ServerInput::Read(ReadOutcome::Data(data)) && data@.len() == 0)
    ||| input == ServerInput::<C>::Wrote(WriteOutcome::Count(0))
    ||| input == ServerInput::<C>::Flushed(Outcome::Done)
}

/// Whether one of the first `m` of `inputs` has finished the exchange with connection `i`.
pub open spec fn finished<C>(
    states: Seq<ServerView<C>>,
    inputs: Seq<ServerInput<C>>,
    m: int,
    i: usize,
) -> bool {
    exists|k: int|
        0 <= k < m && (#[trigger] states[k]).phase == Phase::Visiting(i) && finishes(inputs[k])
}

/// A connection is marked in a round if and only if one of its tries in the round has
/// finished its exchange.
pub proof fn law_marked_connections_are_finished<C>(
    states: Seq<ServerView<C>>,
    inputs: Seq<ServerInput<C>>,
    k: int,
    i: usize,
)
    requires
        told_through(states, inputs),
        states[0].phase == Phase::Visiting(0),
        states[0].completed.len() == 0,
        0 <= k < states.len(),
        i < states[0].connections.len(),
    ensures
        listed(states[k].completed, i as int) <==> finished(states, inputs, k, i),
    decreases k,
{
    if k > 0 {
        law_marked_connections_are_finished(states, inputs, k - 1, i);
        lemma_round_so_far(states, inputs, k - 1, i);
        let before = states[k - 1];
        let input = inputs[k - 1];
        let later = states[k].completed;
        assert(before.expects(input) && states[k - 1 + 1] == next(before, input));
        if let Phase::Visiting(j) = before.phase {
            law_outcome_decides_the_try(before, input, j);
            if listed(before.completed, i as int) {
                let m = choose|m: int|
                    0 <= m < before.completed.len() && #[trigger] before.completed[m] == i;
                assert(later[m] == i);
            }
            if listed(later, i as int) {
                let m = choose|m: int| 0 <= m < later.len() && #[trigger] later[m] == i;
                if m < before.completed.len() {
                    assert(before.completed[m] == i);
                    let f = choose|f: int|
                        0 <= f < k - 1 && (#[trigger] states[f]).phase == Phase::Visiting(i)
                            && finishes(inputs[f]);
                    assert(states[f].phase == Phase::Visiting(i));
                } else {
                    assert(states[k - 1].phase == Phase::Visiting(i));
                }
            }
            if finished(states, inputs, k, i) {
                let f = choose|f: int|
                    0 <= f < k && (#[trigger] states[f]).phase == Phase::Visiting(i) && finishes(
                        inputs[f],
                    );
                if f < k - 1 {
                    assert(finished(states, inputs, k - 1, i));
                } else {
                    assert(later[later.len() - 1] == i);
                }
            }
        }
    }
}

} // verus!
