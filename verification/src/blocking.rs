//! A connection served from start to end by a caller that waits for every operation.

use crate::exchange::{
    is_operation, lemma_operations_are_bounded, operations_left, received, sent, Action,
    HandlerState, Input, Outcome, ReadOutcome, Report, ReportView, Stage, Step, WriteOutcome,
};
use crate::handler::{self, accepts, disconnects, next, rules};
use crate::http::{
    ends_request, is_request, lemma_response_len, request_text, response, utf8_lossy,
    REQUEST_CAPACITY, RESPONSE_LEN,
};
use vstd::prelude::*;

verus! {

/// Whether `input` is an operation that has returned an error, of whatever kind.
pub open spec fn fails(input: Input) -> bool {
    match input {
        Input::Read(outcome) => !(outcome is Data),
        Input::Wrote(outcome) => !(outcome is Count),
        Input::Flushed(outcome) => !(outcome is Done),
        Input::Registered(outcome) => !(outcome is Done),
        _ => false,
    }
}

/// What to do after `input`: hand on an error, return when the client is gone or the
/// answer is flushed, else go on with the operation of the stage that it leads to.
pub open spec fn action(stage: Stage, input: Input) -> Action {
    if fails(input) {
        Action::Fail
    } else if disconnects(input) || input is Flushed {
        Action::Complete
    } else {
        next(stage, input).wants()
    }
}

/// What to report after `input`: a client that is gone, or the request once all of it
/// has arrived, with the length of the answer to come.
pub open spec fn report(stage: Stage, input: Input) -> ReportView {
    match (stage, input) {
        (Stage::Read { request }, Input::Read(ReadOutcome::Data(data))) if data@.len() > 0
            && is_request(request + data@) => ReportView::Answering {
            text: utf8_lossy(request + data@),
            length: RESPONSE_LEN as nat,
        },
        _ => if disconnects(input) {
            ReportView::Disconnected { line: "client disconnected unexpectedly"@ }
        } else {
            ReportView::Nothing
        },
    }
}

/// One connection, served without a reactor.
pub struct BlockingHandler {
    pub state: HandlerState,
}

/// Begins to serve a connection that has just been accepted.
pub fn handle_connection() -> (res: BlockingHandler)
    ensures
        res.state@ == (Stage::Read { request: Seq::empty() }),
{
    BlockingHandler { state: HandlerState::Read { request: Vec::new() } }
}

impl BlockingHandler {
    /// Tests whether `proceed` can be called with `input`.
    pub fn admits(&self, input: &Input) -> (ok: bool)
        requires
            self.state@.wf(),
        ensures
            ok == accepts(self.state@, *input),
    {
        handler::admits(&self.state, input)
    }

    /// Takes what has happened and says what to do next. `Input::Polled` asks for the
    /// first operation.
    pub fn proceed(&mut self, input: Input) -> (step: Step)
        requires
            old(self).state@.wf(),
            !(old(self).state@ is Start),
            accepts(old(self).state@, input),
        ensures
            final(self).state@.wf(),
            !(final(self).state@ is Start),
            final(self).state@ == next(old(self).state@, input),
            step.action == action(old(self).state@, input),
            step.report@ == report(old(self).state@, input),
    {
        let mut report = Report::Nothing;
        match input {
            Input::Polled | Input::Registered(Outcome::Done) => {},
            Input::Read(ReadOutcome::Data(data)) => {
                if data.len() == 0 {
                    let line = "client disconnected unexpectedly";
                    return Step {
                        report: Report::Disconnected { line },
                        action: Action::Complete,
                    };
                }
                if let HandlerState::Read { request } = &mut self.state {
                    let ghost before = request@;
                    request.extend_from_slice(data.as_slice());
                    assert(request@ =~= before + data@);
                    if ends_request(request.as_slice()) {
                        report = Report::Answering {
                            text: request_text(request.as_slice()),
                            length: RESPONSE_LEN,
                        };
                        self.state = HandlerState::Write { written: 0 };
                    }
                }
            },
            Input::Wrote(WriteOutcome::Count(n)) => {
                if n == 0 {
                    let line = "client disconnected unexpectedly";
                    return Step {
                        report: Report::Disconnected { line },
                        action: Action::Complete,
                    };
                }
                if let HandlerState::Write { written } = &mut self.state {
                    *written = *written + n;
                    if *written == RESPONSE_LEN {
                        self.state = HandlerState::Flush;
                    }
                }
            },
            Input::Flushed(Outcome::Done) => {
                return Step { report, action: Action::Complete };
            },
            _ => {
                return Step { report, action: Action::Fail };
            },
        }
        Step { report, action: self.state.wanted() }
    }
}

/// Where serving a connection begins.
pub open spec fn beginning() -> Stage {
    Stage::Read { request: Seq::empty() }
}

/// Whatever the connection does: the bytes that arrive are kept in order, up to the end
/// of the request and no more than there is room for; only a whole request is answered;
/// what has been sent is the beginning of the answer, without a gap or a repetition,
/// and the whole answer when it comes to the flush.
pub proof fn law_exchange_is_in_order(inputs: Seq<Input>)
    requires
        rules().takes(beginning(), inputs),
    ensures
        ({
            let arrived = rules().arrived(beginning(), inputs);
            let departed = rules().departed(beginning(), inputs);
            &&& arrived.len() <= REQUEST_CAPACITY
            &&& match rules().after(beginning(), inputs) {
                Stage::Start => false,
                Stage::Read { request } => {
                    &&& request == arrived
                    &&& !is_request(arrived)
                    &&& departed.len() == 0
                },
                Stage::Write { written } => {
                    &&& is_request(arrived)
                    &&& written < RESPONSE_LEN
                    &&& departed == response().take(written as int)
                },
                Stage::Flush => is_request(arrived) && departed == response(),
            }
        }),
{
    handler::law_exchange_is_in_order(beginning(), inputs);
    lemma_never_starts_over(inputs);
}

/// Serving does not go back to before the first read.
proof fn lemma_never_starts_over(inputs: Seq<Input>)
    ensures
        !(rules().after(beginning(), inputs) is Start),
    decreases inputs.len(),
{
    if inputs.len() > 0 {
        lemma_never_starts_over(inputs.drop_last());
    }
}

/// Serving ends well in two ways only: the client is gone, or it has sent a whole
/// request and been sent the whole answer.
pub proof fn law_completes_when_answered_or_abandoned(inputs: Seq<Input>, last: Input)
    requires
        rules().takes(beginning(), inputs),
        accepts(rules().after(beginning(), inputs), last),
        action(rules().after(beginning(), inputs), last) is Complete,
    ensures
        disconnects(last) || {
            &&& is_request(rules().arrived(beginning(), inputs))
            &&& rules().departed(beginning(), inputs) == response()
        },
{
    law_exchange_is_in_order(inputs);
}

/// Each operation that does not end the serving brings the exchange nearer to its last
/// one, and none is ever waited for in another poll.
pub proof fn law_operation_brings_on(stage: Stage, input: Input)
    requires
        stage.wf(),
        accepts(stage, input),
        !(input is Polled),
    ensures
        !(action(stage, input) is Pending),
        next(stage, input).wf(),
        is_operation(action(stage, input)) ==> 0 <= operations_left(next(stage, input))
            < operations_left(stage),
{
}

/// Serving a connection ends: it asks for no more operations than there were left.
pub proof fn law_serving_ends(stage: Stage, inputs: Seq<Input>)
    requires
        stage.wf(),
        rules().takes(stage, inputs),
        forall|k: int|
            0 <= k < inputs.len() ==> !(#[trigger] inputs[k] is Polled) && is_operation(
                action(rules().after(stage, inputs.take(k)), inputs[k]),
            ),
    ensures
        rules().after(stage, inputs).wf(),
        0 <= operations_left(rules().after(stage, inputs)),
        inputs.len() <= operations_left(stage) - operations_left(rules().after(stage, inputs)),
{
    assert forall|s: Stage, i: Input| #[trigger]
        (rules().accepts)(s, i) && s.wf() && !(i is Polled) && is_operation(
            action(s, i),
        ) implies {
        &&& (rules().next)(s, i).wf()
        &&& 0 <= operations_left((rules().next)(s, i)) < operations_left(s)
    } by {
        law_operation_brings_on(s, i);
    }
    lemma_operations_are_bounded(
        rules(),
        |s: Stage, i: Input| action(s, i),
        stage,
        inputs,
    );
}

/// What is asked for is what the exchange still lacks, as told by all that has come in and
/// gone out. A read is asked for until the bytes received are a whole request, with the
/// room that they leave. A write is asked for only then, and begins behind the last byte
/// that is gone: with the first byte of the answer when the request has just become whole.
/// The flush comes when the whole answer is gone.
pub proof fn law_asks_for_what_is_missing(inputs: Seq<Input>)
    requires
        inputs.len() > 0,
        rules().takes(beginning(), inputs),
    ensures
        rules().after(beginning(), inputs).wf(),
        match action(rules().after(beginning(), inputs.drop_last()), inputs.last()) {
            Action::Read { limit } => {
                &&& !is_request(received(inputs))
                &&& received(inputs).len() + limit == REQUEST_CAPACITY
                &&& sent(inputs) == 0
            },
            Action::Write { from } => {
                &&& is_request(received(inputs))
                &&& from == sent(inputs)
                &&& from < response().len()
            },
            Action::Flush => is_request(received(inputs)) && sent(inputs) == response().len(),
            Action::Complete | Action::Fail => true,
            Action::Register | Action::Pending | Action::Close => false,
        },
{
    lemma_response_len();
    handler::law_stage_follows_from_history(beginning(), inputs.drop_last());
    handler::law_stage_follows_from_history(beginning(), inputs);
    lemma_never_starts_over(inputs.drop_last());
    assert(accepts(rules().after(beginning(), inputs.drop_last()), inputs.last()));
}

/// The last outcome alone decides how serving ends, in whatever stage. It returns an error
/// exactly if an operation has returned one, of whatever kind. It returns exactly if a read
/// or a write has moved nothing, or the flush is done. In all other cases it goes on with
/// an operation, that of the stage which the exchange has come to.
pub proof fn law_outcome_decides_how_serving_ends(stage: Stage, input: Input)
    requires
        stage.wf(),
        accepts(stage, input),
    ensures
        action(stage, input) is Fail <==> {
            ||| input == Input::Registered(Outcome::WouldBlock)
            ||| input == Input::Registered(Outcome::Failed)
            ||| input == Input::Read(ReadOutcome::WouldBlock)
            ||| input == Input::Read(ReadOutcome::Failed)
            ||| input == Input::Wrote(WriteOutcome::WouldBlock)
            ||| input == Input::Wrote(WriteOutcome::Failed)
            ||| input == Input::Flushed(Outcome::WouldBlock)
            ||| input == Input::Flushed(Outcome::Failed)
        },
        action(stage, input) is Complete <==> {
            ||| (input matches Input::Read(ReadOutcome::Data(data)) && data@.len() == 0)
            ||| input == Input::Wrote(WriteOutcome::Count(0))
            ||| input == Input::Flushed(Outcome::Done)
        },
        !(action(stage, input) is Pending),
        !(action(stage, input) is Close),
        is_operation(action(stage, input)) ==> action(stage, input) == next(stage, input).wants(),
{
}

/// The request is reported when the read that completes it has returned, with all of its
/// bytes and the length of the answer; a client that is gone is reported. Nothing else is.
pub proof fn law_reports_what_has_happened(inputs: Seq<Input>)
    requires
        inputs.len() > 0,
        rules().takes(beginning(), inputs),
    ensures
        ({
            let gone = {
                ||| (inputs.last() matches Input::Read(ReadOutcome::Data(data)) && data@.len() == 0)
                ||| inputs.last() == Input::Wrote(WriteOutcome::Count(0))
            };
            let completes = inputs.last() is Read && is_request(received(inputs));
            match report(rules().after(beginning(), inputs.drop_last()), inputs.last()) {
                ReportView::Nothing => !gone && !completes,
                ReportView::Answering { text, length } => {
                    &&& completes
                    &&& text == utf8_lossy(received(inputs))
                    &&& length == response().len()
                },
                ReportView::Disconnected { line } => gone && line
                    == "client disconnected unexpectedly"@,
                ReportView::Request { .. } => false,
            }
        }),
{
    lemma_response_len();
    handler::law_stage_follows_from_history(beginning(), inputs.drop_last());
    lemma_never_starts_over(inputs.drop_last());
    assert(accepts(rules().after(beginning(), inputs.drop_last()), inputs.last()));
    if let Input::Read(ReadOutcome::Data(data)) = inputs.last() {
        let before = received(inputs.drop_last());
        assert(data@.len() == 0 ==> before + data@ =~= before);
    }
}

/// The same of every stage: the bytes that are kept and those that have come are reported
/// as soon as together they are a whole request, and a client that is gone is reported in
/// whatever stage it is found out.
pub proof fn law_reports_in_every_stage(stage: Stage, input: Input)
    ensures
        ({
            let bytes = match (stage, input) {
                (Stage::Read { request }, Input::Read(ReadOutcome::Data(data))) => request + data@,
                _ => Seq::empty(),
            };
            let gone = {
                ||| (input matches Input::Read(ReadOutcome::Data(data)) && data@.len() == 0)
                ||| input == Input::Wrote(WriteOutcome::Count(0))
            };
            let completes = !gone && is_request(bytes);
            match report(stage, input) {
                ReportView::Nothing => !gone && !completes,
                ReportView::Answering { text, length } => {
                    &&& completes
                    &&& text == utf8_lossy(bytes)
                    &&& length == response().len()
                },
                ReportView::Disconnected { line } => gone && line
                    == "client disconnected unexpectedly"@,
                ReportView::Request { .. } => false,
            }
        }),
{
    lemma_response_len();
}

} // verus!
