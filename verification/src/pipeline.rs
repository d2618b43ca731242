//! A connection served by a chain of steps, each of which hands over to the next when it
//! is through: register, read the request, send the answer, flush.

use crate::exchange::{
    has_read_nothing, has_registered, has_written_nothing, is_operation,
    lemma_operations_are_bounded, operations_left, received, sent, Action, HandlerState, Input,
    Outcome, ReadOutcome, Report, ReportView, Rules, Stage, Step, WriteOutcome,
};
use crate::handler::disconnects;
use crate::http::{
    ends_request, is_request, lemma_response_len, request_text, response, utf8_lossy,
    REQUEST_CAPACITY, RESPONSE_LEN,
};
use vstd::prelude::*;

verus! {

/// The stage after `input`. A client that disconnects ends the step that notices it,
/// and the next one takes over all the same; an operation that cannot be done now and
/// one that fails leave the stage as it was.
pub open spec fn next(stage: Stage, input: Input) -> Stage {
    match (stage, input) {
        (Stage::Start, Input::Registered(Outcome::Done)) => Stage::Read {
            request: Seq::empty(),
        },
        (Stage::Read { request }, Input::Read(ReadOutcome::Data(data))) => if data@.len() == 0 {
            Stage::Write { written: 0 }
        } else {
            Stage::having_read(request + data@)
        },
        (Stage::Write { written }, Input::Wrote(WriteOutcome::Count(n))) => if n == 0 {
            Stage::Flush
        } else {
            Stage::having_written((written + n) as nat)
        },
        _ => stage,
    }
}

/// What the pipeline asks for after `input`: the operation of the stage that it leads
/// to, unless the last one could not be done now, has failed, or was the last of all.
pub open spec fn action(stage: Stage, input: Input) -> Action {
    match input {
        Input::Read(ReadOutcome::WouldBlock) => Action::Pending,
        Input::Wrote(WriteOutcome::WouldBlock) => Action::Pending,
        Input::Flushed(Outcome::WouldBlock) => Action::Pending,
        Input::Registered(Outcome::WouldBlock) => Action::Fail,
        Input::Registered(Outcome::Failed) => Action::Fail,
        Input::Read(ReadOutcome::Failed) => Action::Fail,
        Input::Wrote(WriteOutcome::Failed) => Action::Fail,
        Input::Flushed(Outcome::Failed) => Action::Fail,
        Input::Flushed(Outcome::Done) => Action::Close,
        _ => next(stage, input).wants(),
    }
}

/// The line that says how the client was found to be gone.
pub open spec fn farewell(input: Input) -> Seq<char> {
    if input is Read {
        "client disconnected unexpected"@
    } else {
        "client disself.connection.cted unexpectedly"@
    }
}

/// What the pipeline reports after `input`: a client that is gone, or the request once
/// all of it has arrived.
pub open spec fn report(stage: Stage, input: Input) -> ReportView {
    match (stage, input) {
        (Stage::Read { request }, Input::Read(ReadOutcome::Data(data))) if data@.len() > 0
            && is_request(request + data@) => ReportView::Request {
            text: utf8_lossy(request + data@),
        },
        _ => if disconnects(input) {
            ReportView::Disconnected { line: farewell(input) }
        } else {
            ReportView::Nothing
        },
    }
}

/// The steps that serve one connection, and how far they have come.
pub struct Pipeline {
    pub state: HandlerState,
}

/// The steps for a connection that has just been accepted.
pub fn handle() -> (res: Pipeline)
    ensures
        res.state@ == Stage::Start,
{
    Pipeline { state: HandlerState::Start }
}

impl Pipeline {
    /// Tests whether `poll` can be called with `input`.
    pub fn admits(&self, input: &Input) -> (ok: bool)
        requires
            self.state@.wf(),
        ensures
            ok == self.state@.expects(*input),
    {
        self.state.awaits(input)
    }

    /// Takes what has happened and says what to do next. A poll begins with
    /// `Input::Polled` and lasts until an action returns from it.
    pub fn poll(&mut self, input: Input) -> (step: Step)
        requires
            old(self).state@.wf(),
            old(self).state@.expects(input),
        ensures
            final(self).state@.wf(),
            final(self).state@ == next(old(self).state@, input),
            step.action == action(old(self).state@, input),
            step.report@ == report(old(self).state@, input),
    {
        let mut report = Report::Nothing;
        match input {
            Input::Polled => {},
            Input::Registered(Outcome::Done) => {
                self.state = HandlerState::Read { request: Vec::new() };
            },
            Input::Read(ReadOutcome::Data(data)) => {
                if data.len() == 0 {
                    report = Report::Disconnected { line: "client disconnected unexpected" };
                    self.state = HandlerState::Write { written: 0 };
                } else if let HandlerState::Read { request } = &mut self.state {
                    let ghost before = request@;
                    request.extend_from_slice(data.as_slice());
                    assert(request@ =~= before + data@);
                    if ends_request(request.as_slice()) {
                        report = Report::Request { text: request_text(request.as_slice()) };
                        self.state = HandlerState::Write { written: 0 };
                    }
                }
            },
            Input::Wrote(WriteOutcome::Count(n)) => {
                if n == 0 {
                    report = Report::Disconnected {
                        line: "client disself.connection.cted unexpectedly",
                    };
                    self.state = HandlerState::Flush;
                } else if let HandlerState::Write { written } = &mut self.state {
                    *written = *written + n;
                    if *written == RESPONSE_LEN {
                        self.state = HandlerState::Flush;
                    }
                }
            },
            Input::Flushed(Outcome::Done) => {
                return Step { report, action: Action::Close };
            },
            Input::Read(ReadOutcome::WouldBlock)
            | Input::Wrote(WriteOutcome::WouldBlock)
            | Input::Flushed(Outcome::WouldBlock) => {
                return Step { report, action: Action::Pending };
            },
            Input::Registered(Outcome::WouldBlock)
            | Input::Registered(Outcome::Failed)
            | Input::Read(ReadOutcome::Failed)
            | Input::Wrote(WriteOutcome::Failed)
            | Input::Flushed(Outcome::Failed) => {
                return Step { report, action: Action::Fail };
            },
        }
        Step { report, action: self.state.wanted() }
    }
}

/// How the pipeline works.
pub open spec fn rules() -> Rules {
    Rules {
        accepts: |stage: Stage, input: Input| stage.expects(input),
        next: |stage: Stage, input: Input| next(stage, input),
    }
}

/// Whether `input` is a read that moved nothing.
pub open spec fn empty_read(input: Input) -> bool {
    input is Read && disconnects(input)
}

/// Whether `input` is a write that moved nothing.
pub open spec fn empty_write(input: Input) -> bool {
    input is Wrote && disconnects(input)
}

/// Whether none of `inputs` is of that kind.
pub open spec fn never(inputs: Seq<Input>, kind: spec_fn(Input) -> bool) -> bool {
    forall|k: int| 0 <= k < inputs.len() ==> !kind(#[trigger] inputs[k])
}

/// Whatever the connection does, and over any number of polls: the pipeline keeps the
/// bytes that arrive, in order, up to the end of the request and no more than it has
/// room for; what it has sent is the beginning of the answer, without a gap or a
/// repetition. Unless a read has come back empty, it answers only a whole request; unless
/// a write has, the whole answer is gone once it flushes.
pub proof fn law_exchange_is_in_order(inputs: Seq<Input>)
    requires
        rules().takes(Stage::Start, inputs),
    ensures
        ({
            let arrived = rules().arrived(Stage::Start, inputs);
            let departed = rules().departed(Stage::Start, inputs);
            let whole_request = never(inputs, |input: Input| empty_read(input));
            let whole_answer = never(inputs, |input: Input| empty_write(input));
            &&& arrived.len() <= REQUEST_CAPACITY
            &&& match rules().after(Stage::Start, inputs) {
                Stage::Start => arrived.len() == 0 && departed.len() == 0,
                Stage::Read { request } => {
                    &&& request == arrived
                    &&& !is_request(arrived)
                    &&& departed.len() == 0
                },
                Stage::Write { written } => {
                    &&& whole_request ==> is_request(arrived)
                    &&& written < RESPONSE_LEN
                    &&& departed == response().take(written as int)
                },
                Stage::Flush => {
                    &&& whole_request ==> is_request(arrived)
                    &&& whole_answer ==> departed == response()
                    &&& departed.is_prefix_of(response())
                },
            }
        }),
    decreases inputs.len(),
{
    lemma_response_len();
    if inputs.len() > 0 {
        let before = inputs.drop_last();
        let last = inputs.last();
        law_exchange_is_in_order(before);
        let stage = rules().after(Stage::Start, before);
        let arrived = rules().arrived(Stage::Start, before);
        let departed = rules().departed(Stage::Start, before);
        assert(stage.expects(last));
        assert(rules().after(Stage::Start, inputs) == next(stage, last));
        assert(arrived + Seq::<u8>::empty() =~= arrived);
        assert(departed + Seq::<u8>::empty() =~= departed);
        assert(response().take(0) =~= Seq::empty());
        assert(last == inputs[inputs.len() - 1]);
        assert(forall|k: int| 0 <= k < before.len() ==> before[k] == inputs[k]);
        match (stage, last) {
            (Stage::Read { request }, Input::Read(ReadOutcome::Data(data))) => {
                assert(data@.len() == 0 ==> arrived + data@ =~= arrived);
            },
            (Stage::Write { written }, Input::Wrote(WriteOutcome::Count(n))) => {
                assert(response().take(written as int) + response().subrange(
                    written as int,
                    written + n,
                ) =~= response().take(written + n));
                assert(response().take(RESPONSE_LEN as int) =~= response());
            },
            _ => {},
        }
    }
}

/// A client is let go only when it has sent a whole request, unless a read has come back
/// empty, and been sent the whole answer, unless a write has.
pub proof fn law_closes_only_when_answered(inputs: Seq<Input>, last: Input)
    requires
        rules().takes(Stage::Start, inputs),
        rules().after(Stage::Start, inputs).expects(last),
        action(rules().after(Stage::Start, inputs), last) is Close,
    ensures
        never(inputs, |input: Input| empty_read(input)) ==> is_request(
            rules().arrived(Stage::Start, inputs),
        ),
        never(inputs, |input: Input| empty_write(input)) ==> rules().departed(
            Stage::Start,
            inputs,
        ) == response(),
{
    law_exchange_is_in_order(inputs);
}

/// A poll that cannot go on loses nothing: the stage is as it was, and the next poll
/// asks for the very operation again.
pub proof fn law_pending_poll_is_resumed(stage: Stage, input: Input)
    requires
        stage.expects(input),
        action(stage, input) is Pending,
    ensures
        next(stage, input) == stage,
        action(next(stage, input), Input::Polled) == stage.wants(),
{
}

/// Each operation that does not end a poll brings the exchange nearer to its last one.
pub proof fn law_operation_brings_on(stage: Stage, input: Input)
    requires
        stage.wf(),
        stage.expects(input),
        !(input is Polled),
        is_operation(action(stage, input)),
    ensures
        next(stage, input).wf(),
        0 <= operations_left(next(stage, input)) < operations_left(stage),
{
}

/// Every poll ends: it asks for no more operations than there were left.
pub proof fn law_poll_ends(stage: Stage, inputs: Seq<Input>)
    requires
        stage.wf(),
        rules().takes(stage, inputs),
        forall|k: int|
            0 <= k < inputs.len() ==> !(#[trigger] inputs[k] is Polled) && is_operation(
                action(rules().after(stage, inputs.take(k)), inputs[k]),
            ),
    ensures
        rules().after(stage, inputs).wf(),
        0 <= operations_left(rules().after(stage, inputs)),
        inputs.len() <= operations_left(stage) - operations_left(rules().after(stage, inputs)),
{
    assert forall|s: Stage, i: Input| #[trigger]
        (rules().accepts)(s, i) && s.wf() && !(i is Polled) && is_operation(
            action(s, i),
        ) implies {
        &&& (rules().next)(s, i).wf()
        &&& 0 <= operations_left((rules().next)(s, i)) < operations_left(s)
    } by {
        law_operation_brings_on(s, i);
    }
    lemma_operations_are_bounded(
        rules(),
        |s: Stage, i: Input| action(s, i),
        stage,
        inputs,
    );
}

/// The place of a stage in the chain of steps.
pub open spec fn step_number(stage: Stage) -> int {
    match stage {
        Stage::Start => 0,
        Stage::Read { .. } => 1,
        Stage::Write { .. } => 2,
        Stage::Flush => 3,
    }
}

/// The steps follow one another, as futures in a chain do: none is skipped and none is
/// gone back to, and a step that is through hands over within the same poll, to the
/// first operation of the next one.
pub proof fn law_steps_follow_one_another(stage: Stage, input: Input)
    requires
        stage.expects(input),
    ensures
        step_number(next(stage, input)) == step_number(stage) || {
            &&& step_number(next(stage, input)) == step_number(stage) + 1
            &&& action(stage, input) == next(stage, input).wants()
        },
{
}

/// The exchange comes to an end only by way of taking the connection out of the reactor,
/// and does so exactly on a completed flush; a client that disconnects does not end it.
pub proof fn law_ends_only_by_closing(stage: Stage, input: Input)
    requires
        stage.expects(input),
    ensures
        !(action(stage, input) is Complete),
        action(stage, input) is Close <==> (stage is Flush && input == Input::Flushed(
            Outcome::Done,
        )),
        disconnects(input) ==> is_operation(action(stage, input)),
{
}

/// Where the exchange stands follows from what has come in and gone out.
pub proof fn law_stage_follows_from_history(inputs: Seq<Input>)
    requires
        rules().takes(Stage::Start, inputs),
    ensures
        rules().after(Stage::Start, inputs).wf(),
        match rules().after(Stage::Start, inputs) {
            Stage::Start => {
                &&& !has_registered(inputs)
                &&& received(inputs).len() == 0
                &&& sent(inputs) == 0
                &&& !has_read_nothing(inputs)
                &&& !has_written_nothing(inputs)
            },
            Stage::Read { request } => {
                &&& has_registered(inputs)
                &&& request == received(inputs)
                &&& !is_request(request)
                &&& sent(inputs) == 0
                &&& !has_read_nothing(inputs)
                &&& !has_written_nothing(inputs)
            },
            Stage::Write { written } => {
                &&& has_registered(inputs)
                &&& is_request(received(inputs)) || has_read_nothing(inputs)
                &&& written == sent(inputs)
                &&& written < RESPONSE_LEN
                &&& !has_written_nothing(inputs)
            },
            Stage::Flush => {
                &&& has_registered(inputs)
                &&& is_request(received(inputs)) || has_read_nothing(inputs)
                &&& sent(inputs) == RESPONSE_LEN || has_written_nothing(inputs)
            },
        },
    decreases inputs.len(),
{
    if inputs.len() > 0 {
        let before = inputs.drop_last();
        let last = inputs.last();
        law_stage_follows_from_history(before);
        let stage = rules().after(Stage::Start, before);
        assert(stage.expects(last));
        assert(rules().after(Stage::Start, inputs) == next(stage, last));
        if let Input::Read(ReadOutcome::Data(data)) = last {
            assert(data@.len() == 0 ==> received(before) + data@ =~= received(before));
        }
    }
}

/// Over any number of polls, the pipeline asks for what the exchange still lacks, as told
/// by all that has come in and gone out since the client was accepted. The connection is
/// registered once. A read is asked for until the bytes received are a whole request or a
/// read has brought nothing, with the room that they leave. A write is asked for only then,
/// and begins behind the last byte that is gone. The flush comes when the whole answer is
/// gone or a write has taken nothing, and closing after it.
pub proof fn law_asks_for_what_is_missing(inputs: Seq<Input>)
    requires
        inputs.len() > 0,
        rules().takes(Stage::Start, inputs),
    ensures
        rules().after(Stage::Start, inputs).wf(),
        ({
            let read = is_request(received(inputs)) || has_read_nothing(inputs);
            let written = sent(inputs) == response().len() || has_written_nothing(inputs);
            match action(rules().after(Stage::Start, inputs.drop_last()), inputs.last()) {
                Action::Register => !has_registered(inputs),
                Action::Read { limit } => {
                    &&& has_registered(inputs)
                    &&& !read
                    &&& received(inputs).len() + limit == REQUEST_CAPACITY
                },
                Action::Write { from } => {
                    &&& has_registered(inputs)
                    &&& read
                    &&& !written
                    &&& from == sent(inputs)
                },
                Action::Flush | Action::Close => has_registered(inputs) && read && written,
                Action::Pending | Action::Fail => true,
                Action::Complete => false,
            }
        }),
{
    lemma_response_len();
    law_stage_follows_from_history(inputs.drop_last());
    law_stage_follows_from_history(inputs);
    assert(rules().after(Stage::Start, inputs.drop_last()).expects(inputs.last()));
}

/// The last outcome alone decides how a poll ends, in whatever stage. It waits exactly for
/// a read, a write or a flush that cannot be done now. It is over exactly if the flush is
/// done. It fails exactly if an operation has failed, a registration also if it cannot be
/// done now. In all other cases the poll goes on with an operation, that of the stage which
/// the exchange has come to.
pub proof fn law_outcome_decides_how_a_poll_ends(stage: Stage, input: Input)
    requires
        stage.wf(),
        stage.expects(input),
    ensures
        action(stage, input) is Pending <==> {
            ||| input == Input::Read(ReadOutcome::WouldBlock)
            ||| input == Input::Wrote(WriteOutcome::WouldBlock)
            ||| input == Input::Flushed(Outcome::WouldBlock)
        },
        !(action(stage, input) is Complete),
        action(stage, input) is Close <==> input == Input::Flushed(Outcome::Done),
        action(stage, input) is Fail <==> {
            ||| input == Input::Registered(Outcome::WouldBlock)
            ||| input == Input::Registered(Outcome::Failed)
            ||| input == Input::Read(ReadOutcome::Failed)
            ||| input == Input::Wrote(WriteOutcome::Failed)
            ||| input == Input::Flushed(Outcome::Failed)
        },
        is_operation(action(stage, input)) ==> action(stage, input) == next(stage, input).wants(),
{
}

/// An outcome that says nothing of bytes or registration leaves every stage as it was.
/// Bytes that arrive are appended to those kept, until they are a whole request; a read
/// that brings none ends the reading. Bytes that are gone are counted on, until the whole
/// answer is; a write that takes none ends the writing.
pub proof fn law_stage_moves_with_the_bytes(stage: Stage, input: Input)
    requires
        stage.wf(),
        stage.expects(input),
    ensures
        next(stage, input).wf(),
        match input {
            Input::Registered(Outcome::Done) => next(stage, input) == (Stage::Read {
                request: Seq::empty(),
            }),
            Input::Read(ReadOutcome::Data(data)) => {
                &&& stage matches Stage::Read { request }
                &&& match next(stage, input) {
                    Stage::Read { request: later } => {
                        &&& data@.len() > 0
                        &&& later == request + data@
                        &&& !is_request(later)
                    },
                    Stage::Write { written } => written == 0 && (data@.len() == 0 || is_request(
                        request + data@,
                    )),
                    _ => false,
                }
            },
            Input::Wrote(WriteOutcome::Count(n)) => {
                &&& stage matches Stage::Write { written }
                &&& match next(stage, input) {
                    Stage::Write { written: later } => {
                        &&& n > 0
                        &&& later == written + n
                        &&& later < response().len()
                    },
                    Stage::Flush => n == 0 || written + n == response().len(),
                    _ => false,
                }
            },
            _ => next(stage, input) == stage,
        },
{
    lemma_response_len();
}

/// The request is reported when the read that completes it has returned, and with all of
/// its bytes; a client that is gone is reported, with a line that says whether a read or a
/// write has found out. Nothing else is reported.
pub proof fn law_reports_what_has_happened(inputs: Seq<Input>)
    requires
        inputs.len() > 0,
        rules().takes(Stage::Start, inputs),
    ensures
        ({
            let completes = inputs.last() is Read && !has_read_nothing(inputs) && is_request(
                received(inputs),
            );
            match report(rules().after(Stage::Start, inputs.drop_last()), inputs.last()) {
                ReportView::Nothing => {
                    &&& !completes
                    &&& inputs.last() matches Input::Read(ReadOutcome::Data(data)) ==> data@.len()
                        > 0
                    &&& inputs.last() != Input::Wrote(WriteOutcome::Count(0))
                },
                ReportView::Request { text } => completes && text == utf8_lossy(received(inputs)),
                ReportView::Disconnected { line } => {
                    ||| {
                        &&& inputs.last() matches Input::Read(ReadOutcome::Data(data))
                        &&& data@.len() == 0
                        &&& line == "client disconnected unexpected"@
                    }
                    ||| {
                        &&& inputs.last() == Input::Wrote(WriteOutcome::Count(0))
                        &&& line == "client disself.connection.cted unexpectedly"@
                    }
                },
                ReportView::Answering { .. } => false,
            }
        }),
{
    law_stage_follows_from_history(inputs.drop_last());
    assert(rules().after(Stage::Start, inputs.drop_last()).expects(inputs.last()));
}

/// The same of every stage: the bytes that are kept and those that have come are reported
/// as soon as together they are a whole request, and a client that is gone is reported in
/// whatever stage it is found out.
pub proof fn law_reports_in_every_stage(stage: Stage, input: Input)
    ensures
        ({
            let bytes = match (stage, input) {
                (Stage::Read { request }, Input::Read(ReadOutcome::Data(data))) => request + data@,
                _ => Seq::empty(),
            };
            let gone = {
                ||| (input matches Input::Read(ReadOutcome::Data(data)) && data@.len() == 0)
                ||| input == Input::Wrote(WriteOutcome::Count(0))
            };
            let completes = !gone && is_request(bytes);
            match report(stage, input) {
                ReportView::Nothing => !gone && !completes,
                ReportView::Request { text } => {
                    &&& completes
                    &&& text == utf8_lossy(bytes)
                },
                ReportView::Disconnected { line } => gone && line == if input is Read {
                    "client disconnected unexpected"@
                } else {
                    "client disself.connection.cted unexpectedly"@
                },
                ReportView::Answering { .. } => false,
            }
        }),
{
}

} // verus!
