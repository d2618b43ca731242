//! What the handlers of a connection have in common: the states that an exchange goes
//! through, the operations that it asks for and what came of them.

use crate::http::{is_request, lemma_response_len, response, REQUEST_CAPACITY, RESPONSE_LEN};
use vstd::prelude::*;

verus! {

/// What came of a read.
pub enum ReadOutcome {
    /// The bytes read; none if the peer has closed its side or no byte was asked for.
    Data(Vec<u8>),
    /// Nothing can be read now.
    WouldBlock,
    /// The read failed.
    Failed,
}

/// What came of a write.
pub enum WriteOutcome {
    /// That many bytes were taken, from the front of those offered.
    Count(usize),
    /// Nothing can be written now.
    WouldBlock,
    /// The write failed.
    Failed,
}

/// What came of an operation that moves no bytes.
#[derive(Clone, Copy, PartialEq, Eq, Structural, Debug)]
pub enum Outcome {
    /// It succeeded.
    Done,
    /// It cannot be done now.
    WouldBlock,
    /// It failed.
    Failed,
}

/// What a handler is told.
pub enum Input {
    /// It is its turn to run.
    Polled,
    /// The attempt to register the connection with the reactor has returned.
    Registered(Outcome),
    /// A read has returned.
    Read(ReadOutcome),
    /// A write has returned.
    Wrote(WriteOutcome),
    /// A flush has returned.
    Flushed(Outcome),
}

/// What a handler asks for.
#[derive(Clone, Copy, PartialEq, Eq, Structural, Debug)]
pub enum Action {
    /// Register the connection with the reactor.
    Register,
    /// Read at most `limit` bytes.
    Read { limit: usize },
    /// Write the answer from position `from` on.
    Write { from: usize },
    /// Flush the connection.
    Flush,
    /// Return without a result: the exchange goes on when the task is woken.
    Pending,
    /// Return: the exchange is over.
    Complete,
    /// Take the connection out of the reactor, then return: the exchange is over.
    Close,
    /// Give up with the error that the last operation has returned.
    Fail,
}

/// What a handler has to tell the operator.
pub enum Report {
    /// Nothing.
    Nothing,
    /// The client has disconnected unexpectedly; `line` says so.
    Disconnected { line: &'static str },
    /// A request has arrived.
    Request { text: String },
    /// A request has arrived and will be answered with `length` bytes.
    Answering { text: String, length: usize },
}

/// A report with its text as a sequence of characters.
#[verifier::ext_equal]
pub enum ReportView {
    Nothing,
    Disconnected { line: Seq<char> },
    Request { text: Seq<char> },
    Answering { text: Seq<char>, length: nat },
}

impl View for Report {
    type V = ReportView;

    open spec fn view(&self) -> ReportView {
        match self {
            Report::Nothing => ReportView::Nothing,
            Report::Disconnected { line } => ReportView::Disconnected { line: line@ },
            Report::Request { text } => ReportView::Request { text: text@ },
            Report::Answering { text, length } => ReportView::Answering {
                text: text@,
                length: *length as nat,
            },
        }
    }
}

/// What a handler answers to an input: first the report, then the action.
pub struct Step {
    pub report: Report,
    pub action: Action,
}

/// Where an exchange stands.
pub enum HandlerState {
    /// Nothing has been done yet.
    Start,
    /// The request is being read; `request` is what has arrived of it.
    Read { request: Vec<u8> },
    /// The answer is being sent; `written` bytes of it are gone.
    Write { written: usize },
    /// The answer is sent and has to be flushed.
    Flush,
}

/// Where an exchange stands, with the request as a sequence of bytes.
#[verifier::ext_equal]
pub enum Stage {
    Start,
    Read { request: Seq<u8> },
    Write { written: nat },
    Flush,
}

impl View for HandlerState {
    type V = Stage;

    open spec fn view(&self) -> Stage {
        match self {
            HandlerState::Start => Stage::Start,
            HandlerState::Read { request } => Stage::Read { request: request@ },
            HandlerState::Write { written } => Stage::Write { written: *written as nat },
            HandlerState::Flush => Stage::Flush,
        }
    }
}

impl Stage {
    /// No more is kept of the request, and no more is sent, than there is room and
    /// there are bytes for.
    pub open spec fn wf(self) -> bool {
        match self {
            Stage::Read { request } => request.len() <= REQUEST_CAPACITY,
            Stage::Write { written } => written <= RESPONSE_LEN,
            _ => true,
        }
    }

    /// The operation that carries the exchange on.
    pub open spec fn wants(self) -> Action {
        match self {
            Stage::Start => Action::Register,
            Stage::Read { request } => Action::Read {
                limit: (REQUEST_CAPACITY - request.len()) as usize,
            },
            Stage::Write { written } => Action::Write { from: written as usize },
            Stage::Flush => Action::Flush,
        }
    }

    /// Whether `input` can come in this stage: it is a turn to run, or the outcome of
    /// the operation that the stage asks for, which moves no more bytes than asked for.
    pub open spec fn expects(self, input: Input) -> bool {
        match (self, input) {
            (_, Input::Polled) => true,
            (Stage::Start, Input::Registered(_)) => true,
            (Stage::Read { request }, Input::Read(ReadOutcome::Data(data))) => request.len()
                + data@.len() <= REQUEST_CAPACITY,
            (Stage::Read { .. }, Input::Read(_)) => true,
            (Stage::Write { written }, Input::Wrote(WriteOutcome::Count(n))) => written + n
                <= RESPONSE_LEN,
            (Stage::Write { .. }, Input::Wrote(_)) => true,
            (Stage::Flush, Input::Flushed(_)) => true,
            _ => false,
        }
    }

    /// The stage once `request` has arrived.
    pub open spec fn having_read(request: Seq<u8>) -> Stage {
        if is_request(request) {
            Stage::Write { written: 0 }
        } else {
            Stage::Read { request }
        }
    }

    /// The stage once `written` bytes of the answer are gone.
    pub open spec fn having_written(written: nat) -> Stage {
        if written == RESPONSE_LEN {
            Stage::Flush
        } else {
            Stage::Write { written }
        }
    }

    /// The bytes that `input` says have arrived.
    pub open spec fn arriving(self, input: Input) -> Seq<u8> {
        match (self, input) {
            (Stage::Read { .. }, Input::Read(ReadOutcome::Data(data))) => data@,
            _ => Seq::empty(),
        }
    }

    /// The bytes that `input` says are gone: the next ones of the answer.
    pub open spec fn leaving(self, input: Input) -> Seq<u8> {
        match (self, input) {
            (Stage::Write { written }, Input::Wrote(WriteOutcome::Count(n))) => response().subrange(
                written as int,
                written + n,
            ),
            _ => Seq::empty(),
        }
    }
}

/// How a handler works: which inputs it takes in a stage, and the stage they lead to.
pub struct Rules {
    pub accepts: spec_fn(Stage, Input) -> bool,
    pub next: spec_fn(Stage, Input) -> Stage,
}

impl Rules {
    /// The stage that `inputs` lead to from `stage`.
    pub open spec fn after(self, stage: Stage, inputs: Seq<Input>) -> Stage
        decreases inputs.len(),
    {
        if inputs.len() == 0 {
            stage
        } else {
            (self.next)(self.after(stage, inputs.drop_last()), inputs.last())
        }
    }

    /// Whether the handler takes each of `inputs` when its turn comes.
    pub open spec fn takes(self, stage: Stage, inputs: Seq<Input>) -> bool
        decreases inputs.len(),
    {
        inputs.len() == 0 || {
            &&& self.takes(stage, inputs.drop_last())
            &&& (self.accepts)(self.after(stage, inputs.drop_last()), inputs.last())
        }
    }

    /// All bytes that have arrived in the course of `inputs`.
    pub open spec fn arrived(self, stage: Stage, inputs: Seq<Input>) -> Seq<u8>
        decreases inputs.len(),
    {
        if inputs.len() == 0 {
            Seq::empty()
        } else {
            self.arrived(stage, inputs.drop_last()) + self.after(
                stage,
                inputs.drop_last(),
            ).arriving(inputs.last())
        }
    }

    /// All bytes that are gone in the course of `inputs`.
    pub open spec fn departed(self, stage: Stage, inputs: Seq<Input>) -> Seq<u8>
        decreases inputs.len(),
    {
        if inputs.len() == 0 {
            Seq::empty()
        } else {
            self.departed(stage, inputs.drop_last()) + self.after(
                stage,
                inputs.drop_last(),
            ).leaving(inputs.last())
        }
    }
}

/// A bound on how many operations an exchange can still ask for without returning.
pub open spec fn operations_left(stage: Stage) -> int {
    match stage {
        Stage::Start => REQUEST_CAPACITY + RESPONSE_LEN + 3,
        Stage::Read { request } => REQUEST_CAPACITY - request.len() + RESPONSE_LEN + 2,
        Stage::Write { written } => RESPONSE_LEN - written + 1,
        Stage::Flush => 0,
    }
}

/// Whether `action` is an operation on the connection, whose outcome the handler has to
/// be told within the same poll.
pub open spec fn is_operation(action: Action) -> bool {
    action is Register || action is Read || action is Write || action is Flush
}

/// Runs of operations are bounded for a handler each of whose operations, unless it ends
/// the run, leaves fewer of them than there were.
pub proof fn lemma_operations_are_bounded(
    rules: Rules,
    action: spec_fn(Stage, Input) -> Action,
    stage: Stage,
    inputs: Seq<Input>,
)
    requires
        stage.wf(),
        rules.takes(stage, inputs),
        forall|s: Stage, i: Input| #[trigger]
            (rules.accepts)(s, i) && s.wf() && !(i is Polled) && is_operation(action(s, i)) ==> {
                &&& (rules.next)(s, i).wf()
                &&& 0 <= operations_left((rules.next)(s, i)) < operations_left(s)
            },
        forall|k: int|
            0 <= k < inputs.len() ==> !(#[trigger] inputs[k] is Polled) && is_operation(
                action(rules.after(stage, inputs.take(k)), inputs[k]),
            ),
    ensures
        rules.after(stage, inputs).wf(),
        0 <= operations_left(rules.after(stage, inputs)),
        inputs.len() <= operations_left(stage) - operations_left(rules.after(stage, inputs)),
    decreases inputs.len(),
{
    if inputs.len() > 0 {
        let before = inputs.drop_last();
        let last = inputs.len() - 1;
        assert(inputs.take(last) =~= before);
        assert(inputs[last] == inputs.last());
        assert forall|k: int| 0 <= k < before.len() implies !(#[trigger] before[k] is Polled)
            && is_operation(action(rules.after(stage, before.take(k)), before[k])) by {
            assert(before[k] == inputs[k]);
            assert(before.take(k) =~= inputs.take(k));
        }
        lemma_operations_are_bounded(rules, action, stage, before);
        assert((rules.accepts)(rules.after(stage, before), inputs.last()));
    }
}

impl HandlerState {
    /// The operation that carries the exchange on.
    pub fn wanted(&self) -> (action: Action)
        requires
            self@.wf(),
        ensures
            action == self@.wants(),
    {
        match self {
            HandlerState::Start => Action::Register,
            HandlerState::Read { request } => Action::Read {
                limit: REQUEST_CAPACITY - request.len(),
            },
            HandlerState::Write { written } => Action::Write { from: *written },
            HandlerState::Flush => Action::Flush,
        }
    }

    /// Tests whether `input` can come in this state.
    pub fn awaits(&self, input: &Input) -> (ok: bool)
        requires
            self@.wf(),
        ensures
            ok == self@.expects(*input),
    {
        match (self, input) {
            (_, Input::Polled) => true,
            (HandlerState::Start, Input::Registered(_)) => true,
            (HandlerState::Read { request }, Input::Read(ReadOutcome::Data(data))) => {
                data.len() <= REQUEST_CAPACITY - request.len()
            },
            (HandlerState::Read { .. }, Input::Read(_)) => true,
            (HandlerState::Write { written }, Input::Wrote(WriteOutcome::Count(n))) => {
                *n <= RESPONSE_LEN - *written
            },
            (HandlerState::Write { .. }, Input::Wrote(_)) => true,
            (HandlerState::Flush, Input::Flushed(_)) => true,
            _ => false,
        }
    }
}

/// The bytes that reads have brought in the course of `inputs`, one after the other.
pub open spec fn received(inputs: Seq<Input>) -> Seq<u8>
    decreases inputs.len(),
{
    if inputs.len() == 0 {
        Seq::empty()
    } else {
        let before = received(inputs.drop_last());
        match inputs.last() {
            Input::Read(ReadOutcome::Data(data)) => before + data@,
            _ => before,
        }
    }
}

/// How many bytes writes have taken in the course of `inputs`.
pub open spec fn sent(inputs: Seq<Input>) -> nat
    decreases inputs.len(),
{
    if inputs.len() == 0 {
        0
    } else {
        let before = sent(inputs.drop_last());
        match inputs.last() {
            Input::Wrote(WriteOutcome::Count(n)) => before + n as nat,
            _ => before,
        }
    }
}

/// Whether one of `inputs` says that the connection has been registered.
pub open spec fn has_registered(inputs: Seq<Input>) -> bool
    decreases inputs.len(),
{
    inputs.len() > 0 && (has_registered(inputs.drop_last()) || inputs.last()
        == Input::Registered(Outcome::Done))
}

/// Whether one of `inputs` is a read that brought nothing.
pub open spec fn has_read_nothing(inputs: Seq<Input>) -> bool
    decreases inputs.len(),
{
    inputs.len() > 0 && (has_read_nothing(inputs.drop_last()) || (inputs.last() matches Input::Read(
        ReadOutcome::Data(data),
    ) && data@.len() == 0))
}

/// Whether one of `inputs` is a write that took nothing.
pub open spec fn has_written_nothing(inputs: Seq<Input>) -> bool
    decreases inputs.len(),
{
    inputs.len() > 0 && (has_written_nothing(inputs.drop_last()) || inputs.last() == Input::Wrote(
        WriteOutcome::Count(0),
    ))
}

/// The operation of a stage goes on exactly where the stage is: the read has room for all
/// that is still to come, and the write begins with the first byte that is not gone.
pub proof fn law_operation_is_that_of_the_stage(stage: Stage)
    requires
        stage.wf(),
    ensures
        match stage.wants() {
            Action::Register => stage is Start,
            Action::Read { limit } => stage matches Stage::Read { request } && request.len() + limit
                == REQUEST_CAPACITY,
            Action::Write { from } => stage matches Stage::Write { written } && from == written,
            Action::Flush => stage is Flush,
            _ => false,
        },
{
}

/// Whatever can come of the operation that a stage asks for is expected there, and
/// besides it a turn to run, and nothing else.
pub proof fn law_expects_what_was_asked_for(stage: Stage, input: Input)
    requires
        stage.wf(),
    ensures
        stage.expects(input) <==> input is Polled || match stage.wants() {
            Action::Register => input is Registered,
            Action::Read { limit } => input matches Input::Read(outcome) && (
            outcome matches ReadOutcome::Data(data) ==> data@.len() <= limit),
            Action::Write { from } => input matches Input::Wrote(outcome) && (
            outcome matches WriteOutcome::Count(n) ==> from + n <= response().len()),
            _ => input is Flushed,
        },
{
    lemma_response_len();
}

} // verus!
