//! A connection served by a task: register, read the request, send the answer, flush.

use crate::exchange::{
    has_registered, is_operation, lemma_operations_are_bounded, operations_left, received, sent,
    Action, HandlerState, Input, Outcome, ReadOutcome, Report, ReportView, Rules, Stage, Step,
    WriteOutcome,
};
use crate::http::{
    ends_request, is_request, lemma_response_len, response, REQUEST_CAPACITY, RESPONSE_LEN,
};
use vstd::prelude::*;

verus! {

/// Whether the handler can be told `input`. A read that leaves it with some bytes but
/// fewer than the blank line has is left out.
pub open spec fn accepts(stage: Stage, input: Input) -> bool {
    &&& stage.expects(input)
    &&& match (stage, input) {
        (Stage::Read { request }, Input::Read(ReadOutcome::Data(data))) => data@.len() > 0
            ==> request.len() + data@.len() >= 4,
        _ => true,
    }
}

/// Tests whether the handler can be told `input` in state `state`.
pub fn admits(state: &HandlerState, input: &Input) -> (ok: bool)
    requires
        state@.wf(),
    ensures
        ok == accepts(state@, *input),
{
    if !state.awaits(input) {
        return false;
    }
    match (state, input) {
        (HandlerState::Read { request }, Input::Read(ReadOutcome::Data(data))) => {
            data.len() == 0 || request.len() + data.len() >= 4
        },
        _ => true,
    }
}

/// The stage after `input`. A client that disconnects, an operation that cannot be done
/// now and one that fails leave it as it was.
pub open spec fn next(stage: Stage, input: Input) -> Stage {
    match (stage, input) {
        (Stage::Start, Input::Registered(Outcome::Done)) => Stage::Read {
            request: Seq::empty(),
        },
        (Stage::Read { request }, Input::Read(ReadOutcome::Data(data))) if data@.len() > 0 =>
            Stage::having_read(request + data@),
        (Stage::Write { written }, Input::Wrote(WriteOutcome::Count(n))) if n > 0 =>
            Stage::having_written((written + n) as nat),
        _ => stage,
    }
}

/// Whether `input` says that the client is gone: a read or a write that moved nothing.
pub open spec fn disconnects(input: Input) -> bool {
    match input {
        Input::Read(ReadOutcome::Data(data)) => data@.len() == 0,
        Input::Wrote(WriteOutcome::Count(n)) => n == 0,
        _ => false,
    }
}

/// The line that says how the client was found to be gone.
pub open spec fn farewell(input: Input) -> Seq<char> {
    if input is Read {
        "client dissconnected unexpectedly becuase 0 bytes is read"@
    } else {
        "client disself.connection.cted unexpectedly"@
    }
}

/// What the handler reports after `input`: a client that is gone.
pub open spec fn report(input: Input) -> ReportView {
    if disconnects(input) {
        ReportView::Disconnected { line: farewell(input) }
    } else {
        ReportView::Nothing
    }
}

/// What the handler asks for after `input`.
pub open spec fn action(stage: Stage, input: Input) -> Action {
    match input {
        Input::Read(ReadOutcome::WouldBlock) => Action::Pending,
        Input::Wrote(WriteOutcome::WouldBlock) => Action::Pending,
        Input::Flushed(Outcome::WouldBlock) => Action::Pending,
        Input::Registered(Outcome::WouldBlock) => Action::Fail,
        Input::Registered(Outcome::Failed) => Action::Fail,
        Input::Read(ReadOutcome::Failed) => Action::Fail,
        Input::Wrote(WriteOutcome::Failed) => Action::Fail,
        Input::Flushed(Outcome::Failed) => Action::Fail,
        Input::Flushed(Outcome::Done) => Action::Close,
        _ => if disconnects(input) {
            Action::Complete
        } else {
            next(stage, input).wants()
        },
    }
}

/// A task that serves one connection.
pub struct Handler {
    pub state: HandlerState,
}

impl Handler {
    /// A handler for a connection that has just been accepted.
    pub fn new() -> (res: Handler)
        ensures
            res.state@ == Stage::Start,
    {
        Handler { state: HandlerState::Start }
    }

    /// Tests whether `poll` can be called with `input`.
    pub fn admits(&self, input: &Input) -> (ok: bool)
        requires
            self.state@.wf(),
        ensures
            ok == accepts(self.state@, *input),
    {
        self::admits(&self.state, input)
    }

    /// Takes what has happened and says what to do next. A poll begins with
    /// `Input::Polled` and lasts until an action returns from it.
    pub fn poll(&mut self, input: Input) -> (step: Step)
        requires
            old(self).state@.wf(),
            accepts(old(self).state@, input),
        ensures
            final(self).state@.wf(),
            final(self).state@ == next(old(self).state@, input),
            step.action == action(old(self).state@, input),
            step.report@ == report(input),
    {
        match input {
            Input::Polled => {},
            Input::Registered(Outcome::Done) => {
                self.state = HandlerState::Read { request: Vec::new() };
            },
            Input::Read(ReadOutcome::Data(data)) => {
                if data.len() == 0 {
                    let line = "client dissconnected unexpectedly becuase 0 bytes is read";
                    return Step {
                        report: Report::Disconnected { line },
                        action: Action::Complete,
                    };
                }
                if let HandlerState::Read { request } = &mut self.state {
                    request.extend_from_slice(data.as_slice());
                    if ends_request(request.as_slice()) {
                        self.state = HandlerState::Write { written: 0 };
                    }
                }
            },
            Input::Wrote(WriteOutcome::Count(n)) => {
                if n == 0 {
                    let line = "client disself.connection.cted unexpectedly";
                    return Step {
                        report: Report::Disconnected { line },
                        action: Action::Complete,
                    };
                }
                if let HandlerState::Write { written } = &mut self.state {
                    *written = *written + n;
                    if *written == RESPONSE_LEN {
                        self.state = HandlerState::Flush;
                    }
                }
            },
            Input::Flushed(Outcome::Done) => {
                return Step { report: Report::Nothing, action: Action::Close };
            },
            Input::Read(ReadOutcome::WouldBlock)
            | Input::Wrote(WriteOutcome::WouldBlock)
            | Input::Flushed(Outcome::WouldBlock) => {
                return Step { report: Report::Nothing, action: Action::Pending };
            },
            Input::Registered(Outcome::WouldBlock)
            | Input::Registered(Outcome::Failed)
            | Input::Read(ReadOutcome::Failed)
            | Input::Wrote(WriteOutcome::Failed)
            | Input::Flushed(Outcome::Failed) => {
                return Step { report: Report::Nothing, action: Action::Fail };
            },
        }
        Step { report: Report::Nothing, action: self.state.wanted() }
    }
}

/// How the handler works.
pub open spec fn rules() -> Rules {
    Rules {
        accepts: |stage: Stage, input: Input| accepts(stage, input),
        next: |stage: Stage, input: Input| next(stage, input),
    }
}

/// Whether nothing of the exchange has happened at `stage`: the connection is still to be
/// registered, or the first read to be made.
pub open spec fn is_beginning(stage: Stage) -> bool {
    stage is Start || stage == (Stage::Read { request: Seq::empty() })
}

/// Whatever the connection does, and over any number of polls: the handler keeps the
/// bytes that arrive, in order and no more than it has room for; it answers only a
/// whole request, and takes no byte after its end; what it has sent is the beginning of
/// the answer, without a gap or a repetition, and the whole answer once it flushes.
pub proof fn law_exchange_is_in_order(start: Stage, inputs: Seq<Input>)
    requires
        is_beginning(start),
        rules().takes(start, inputs),
    ensures
        ({
            let arrived = rules().arrived(start, inputs);
            let departed = rules().departed(start, inputs);
            &&& arrived.len() <= REQUEST_CAPACITY
            &&& match rules().after(start, inputs) {
                Stage::Start => arrived.len() == 0 && departed.len() == 0,
                Stage::Read { request } => {
                    &&& request == arrived
                    &&& !is_request(arrived)
                    &&& departed.len() == 0
                },
                Stage::Write { written } => {
                    &&& is_request(arrived)
                    &&& written < RESPONSE_LEN
                    &&& departed == response().take(written as int)
                },
                Stage::Flush => is_request(arrived) && departed == response(),
            }
        }),
    decreases inputs.len(),
{
    lemma_response_len();
    if inputs.len() > 0 {
        let before = inputs.drop_last();
        let last = inputs.last();
        law_exchange_is_in_order(start, before);
        let stage = rules().after(start, before);
        let arrived = rules().arrived(start, before);
        let departed = rules().departed(start, before);
        assert(accepts(stage, last));
        assert(rules().after(start, inputs) == next(stage, last));
        assert(arrived + Seq::<u8>::empty() =~= arrived);
        assert(departed + Seq::<u8>::empty() =~= departed);
        match (stage, last) {
            (Stage::Read { request }, Input::Read(ReadOutcome::Data(data))) => {
                assert(data@.len() == 0 ==> arrived + data@ =~= arrived);
            },
            (Stage::Write { written }, Input::Wrote(WriteOutcome::Count(n))) => {
                assert(response().take(written as int) + response().subrange(
                    written as int,
                    written + n,
                ) =~= response().take(written + n));
                assert(response().take(RESPONSE_LEN as int) =~= response());
            },
            _ => {},
        }
    }
}

/// A connection is taken out of the reactor only when its client has sent a whole
/// request and been sent the whole answer.
pub proof fn law_closes_only_when_answered(inputs: Seq<Input>, last: Input)
    requires
        rules().takes(Stage::Start, inputs),
        accepts(rules().after(Stage::Start, inputs), last),
        action(rules().after(Stage::Start, inputs), last) is Close,
    ensures
        is_request(rules().arrived(Stage::Start, inputs)),
        rules().departed(Stage::Start, inputs) == response(),
{
    law_exchange_is_in_order(Stage::Start, inputs);
}

/// A poll that cannot go on loses nothing: the stage is as it was, and the next poll
/// asks for the very operation again.
pub proof fn law_pending_poll_is_resumed(stage: Stage, input: Input)
    requires
        accepts(stage, input),
        action(stage, input) is Pending,
    ensures
        next(stage, input) == stage,
        action(next(stage, input), Input::Polled) == stage.wants(),
{
}

/// Each operation that does not end a poll brings the exchange nearer to its last one.
pub proof fn law_operation_brings_on(stage: Stage, input: Input)
    requires
        stage.wf(),
        accepts(stage, input),
        !(input is Polled),
        is_operation(action(stage, input)),
    ensures
        next(stage, input).wf(),
        0 <= operations_left(next(stage, input)) < operations_left(stage),
{
}

/// Every poll ends: it asks for no more operations than there were left.
pub proof fn law_poll_ends(stage: Stage, inputs: Seq<Input>)
    requires
        stage.wf(),
        rules().takes(stage, inputs),
        forall|k: int|
            0 <= k < inputs.len() ==> !(#[trigger] inputs[k] is Polled) && is_operation(
                action(rules().after(stage, inputs.take(k)), inputs[k]),
            ),
    ensures
        rules().after(stage, inputs).wf(),
        0 <= operations_left(rules().after(stage, inputs)),
        inputs.len() <= operations_left(stage) - operations_left(rules().after(stage, inputs)),
{
    assert forall|s: Stage, i: Input| #[trigger]
        (rules().accepts)(s, i) && s.wf() && !(i is Polled) && is_operation(
            action(s, i),
        ) implies {
        &&& (rules().next)(s, i).wf()
        &&& 0 <= operations_left((rules().next)(s, i)) < operations_left(s)
    } by {
        law_operation_brings_on(s, i);
    }
    lemma_operations_are_bounded(
        rules(),
        |s: Stage, i: Input| action(s, i),
        stage,
        inputs,
    );
}

/// Where the exchange stands follows from what has come in and gone out.
pub proof fn law_stage_follows_from_history(start: Stage, inputs: Seq<Input>)
    requires
        is_beginning(start),
        rules().takes(start, inputs),
    ensures
        rules().after(start, inputs).wf(),
        match rules().after(start, inputs) {
            Stage::Start => {
                &&& start is Start
                &&& !has_registered(inputs)
                &&& received(inputs).len() == 0
                &&& sent(inputs) == 0
            },
            Stage::Read { request } => {
                &&& start is Start ==> has_registered(inputs)
                &&& request == received(inputs)
                &&& !is_request(request)
                &&& sent(inputs) == 0
            },
            Stage::Write { written } => {
                &&& start is Start ==> has_registered(inputs)
                &&& is_request(received(inputs))
                &&& written == sent(inputs)
                &&& written < RESPONSE_LEN
            },
            Stage::Flush => {
                &&& start is Start ==> has_registered(inputs)
                &&& is_request(received(inputs))
                &&& sent(inputs) == RESPONSE_LEN
            },
        },
    decreases inputs.len(),
{
    if inputs.len() > 0 {
        let before = inputs.drop_last();
        let last = inputs.last();
        law_stage_follows_from_history(start, before);
        assert(accepts(rules().after(start, before), last));
        assert(rules().after(start, inputs) == next(rules().after(start, before), last));
        if let Input::Read(ReadOutcome::Data(data)) = last {
            assert(data@.len() == 0 ==> received(before) + data@ =~= received(before));
        }
    }
}

/// Over any number of polls, the handler asks for what the exchange still lacks, as told
/// by all that has come in and gone out since the client was accepted. The connection is
/// registered once. A read is asked for until the bytes received are a whole request, with
/// the room that they leave. A write is asked for only then, and begins behind the last
/// byte that is gone. The flush comes when the whole answer is gone, and closing after it.
pub proof fn law_asks_for_what_is_missing(inputs: Seq<Input>)
    requires
        inputs.len() > 0,
        rules().takes(Stage::Start, inputs),
    ensures
        rules().after(Stage::Start, inputs).wf(),
        match action(rules().after(Stage::Start, inputs.drop_last()), inputs.last()) {
            Action::Register => {
                &&& !has_registered(inputs)
                &&& received(inputs).len() == 0
                &&& sent(inputs) == 0
            },
            Action::Read { limit } => {
                &&& has_registered(inputs)
                &&& !is_request(received(inputs))
                &&& received(inputs).len() + limit == REQUEST_CAPACITY
                &&& sent(inputs) == 0
            },
            Action::Write { from } => {
                &&& has_registered(inputs)
                &&& is_request(received(inputs))
                &&& from == sent(inputs)
                &&& from < response().len()
            },
            Action::Flush | Action::Close => {
                &&& has_registered(inputs)
                &&& is_request(received(inputs))
                &&& sent(inputs) == response().len()
            },
            Action::Pending | Action::Complete | Action::Fail => true,
        },
{
    lemma_response_len();
    law_stage_follows_from_history(Stage::Start, inputs.drop_last());
    law_stage_follows_from_history(Stage::Start, inputs);
    assert(accepts(rules().after(Stage::Start, inputs.drop_last()), inputs.last()));
}

/// The last outcome alone decides how a poll ends, in whatever stage. It waits exactly for
/// a read, a write or a flush that cannot be done now. It is over with nothing answered
/// exactly if a read or a write has moved nothing, and answered exactly if the flush is
/// done. It fails exactly if an operation has failed, a registration also if it cannot be
/// done now. In all other cases the poll goes on with an operation.
pub proof fn law_outcome_decides_how_a_poll_ends(stage: Stage, input: Input)
    requires
        stage.wf(),
        accepts(stage, input),
    ensures
        action(stage, input) is Pending <==> {
            ||| input == Input::Read(ReadOutcome::WouldBlock)
            ||| input == Input::Wrote(WriteOutcome::WouldBlock)
            ||| input == Input::Flushed(Outcome::WouldBlock)
        },
        action(stage, input) is Complete <==> {
            ||| (input matches Input::Read(ReadOutcome::Data(data)) && data@.len() == 0)
            ||| input == Input::Wrote(WriteOutcome::Count(0))
        },
        action(stage, input) is Close <==> input == Input::Flushed(Outcome::Done),
        action(stage, input) is Fail <==> {
            ||| input == Input::Registered(Outcome::WouldBlock)
            ||| input == Input::Registered(Outcome::Failed)
            ||| input == Input::Read(ReadOutcome::Failed)
            ||| input == Input::Wrote(WriteOutcome::Failed)
            ||| input == Input::Flushed(Outcome::Failed)
        },
        is_operation(action(stage, input)) ==> action(stage, input) == next(stage, input).wants(),
{
}

/// An outcome that moves nothing and registers nothing leaves every stage as it was. Bytes
/// that arrive are appended to those kept, until they are a whole request; bytes that are
/// gone are counted on, until the whole answer is.
pub proof fn law_stage_moves_with_the_bytes(stage: Stage, input: Input)
    requires
        stage.wf(),
        accepts(stage, input),
    ensures
        next(stage, input).wf(),
        match input {
            Input::Registered(Outcome::Done) => next(stage, input) == (Stage::Read {
                request: Seq::empty(),
            }),
            Input::Read(ReadOutcome::Data(data)) if data@.len() > 0 => {
                &&& stage matches Stage::Read { request }
                &&& match next(stage, input) {
                    Stage::Read { request: later } => later == request + data@ && !is_request(later),
                    Stage::Write { written } => written == 0 && is_request(request + data@),
                    _ => false,
                }
            },
            Input::Wrote(WriteOutcome::Count(n)) if n > 0 => {
                &&& stage matches Stage::Write { written }
                &&& match next(stage, input) {
                    Stage::Write { written: later } => later == written + n && later
                        < response().len(),
                    Stage::Flush => written + n == response().len(),
                    _ => false,
                }
            },
            _ => next(stage, input) == stage,
        },
{
    lemma_response_len();
}

/// What the stage expects is taken, but for a read that leaves the handler
/// with some bytes and yet fewer than the blank line has.
pub proof fn law_refuses_only_short_requests(stage: Stage, input: Input)
    ensures
        accepts(stage, input) <==> stage.expects(input) && !({
            &&& stage matches Stage::Read { request }
            &&& input matches Input::Read(ReadOutcome::Data(data))
            &&& 0 < data@.len()
            &&& request.len() + data@.len() < 4
        }),
{
}

/// A client that is gone is reported, and nothing else is; the line says whether a read
/// or a write has found out.
pub proof fn law_reports_who_is_gone(input: Input)
    ensures
        match report(input) {
            ReportView::Nothing => {
                &&& input matches Input::Read(ReadOutcome::Data(data)) ==> data@.len() > 0
                &&& input != Input::Wrote(WriteOutcome::Count(0))
            },
            ReportView::Disconnected { line } => {
                ||| {
                    &&& input matches Input::Read(ReadOutcome::Data(data))
                    &&& data@.len() == 0
                    &&& line == "client dissconnected unexpectedly becuase 0 bytes is read"@
                }
                ||| {
                    &&& input == Input::Wrote(WriteOutcome::Count(0))
                    &&& line == "client disself.connection.cted unexpectedly"@
                }
            },
            _ => false,
        },
{
}

} // verus!
