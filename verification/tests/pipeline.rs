use polling_runtime::exchange::{
    Action, HandlerState, Input, Outcome, ReadOutcome, Report, WriteOutcome,
};
use polling_runtime::pipeline::{handle, Pipeline};

fn bytes(bytes: &[u8]) -> Input {
    Input::Read(ReadOutcome::Data(bytes.to_vec()))
}

fn started() -> Pipeline {
    let mut pipeline = handle();
    assert_eq!(pipeline.poll(Input::Polled).action, Action::Register);
    let action = pipeline.poll(Input::Registered(Outcome::Done)).action;
    assert_eq!(action, Action::Read { limit: 1024 });
    pipeline
}

#[test]
fn pipeline_prints_and_answers_a_request() {
    let mut pipeline = started();
    let step = pipeline.poll(bytes(b"GE"));
    assert!(matches!(step.report, Report::Nothing));
    assert_eq!(step.action, Action::Read { limit: 1022 });
    let step = pipeline.poll(bytes(b"T /\xff\r\n\r\n"));
    assert!(matches!(step.report, Report::Request { text } if text == "GET /\u{fffd}\r\n\r\n"));
    assert_eq!(step.action, Action::Write { from: 0 });
    let step = pipeline.poll(Input::Wrote(WriteOutcome::Count(67)));
    assert_eq!(step.action, Action::Write { from: 67 });
    let step = pipeline.poll(Input::Wrote(WriteOutcome::Count(1)));
    assert_eq!(step.action, Action::Flush);
    assert_eq!(pipeline.poll(Input::Flushed(Outcome::Done)).action, Action::Close);
}

#[test]
fn pipeline_takes_short_reads() {
    let mut pipeline = started();
    for (byte, left) in [(b"\r", 1023), (b"\n", 1022), (b"\r", 1021)] {
        assert_eq!(pipeline.poll(bytes(byte)).action, Action::Read { limit: left });
    }
    assert_eq!(pipeline.poll(bytes(b"\n")).action, Action::Write { from: 0 });
}

#[test]
fn pipeline_goes_on_when_the_client_is_gone() {
    let mut pipeline = started();
    pipeline.poll(bytes(b"half a request"));
    let step = pipeline.poll(bytes(b""));
    assert!(matches!(
        step.report,
        Report::Disconnected { line: "client disconnected unexpected" }
    ));
    assert_eq!(step.action, Action::Write { from: 0 });
    pipeline.poll(Input::Wrote(WriteOutcome::Count(5)));
    let step = pipeline.poll(Input::Wrote(WriteOutcome::Count(0)));
    assert!(matches!(
        step.report,
        Report::Disconnected { line: "client disself.connection.cted unexpectedly" }
    ));
    assert_eq!(step.action, Action::Flush);
    assert_eq!(pipeline.poll(Input::Flushed(Outcome::Done)).action, Action::Close);
}

#[test]
fn pipeline_resumes_where_it_was_blocked() {
    let mut pipeline = started();
    pipeline.poll(bytes(b"abc"));
    let step = pipeline.poll(Input::Read(ReadOutcome::WouldBlock));
    assert_eq!(step.action, Action::Pending);
    assert_eq!(pipeline.poll(Input::Polled).action, Action::Read { limit: 1021 });
    pipeline.poll(bytes(b""));
    pipeline.poll(Input::Wrote(WriteOutcome::Count(40)));
    let step = pipeline.poll(Input::Wrote(WriteOutcome::WouldBlock));
    assert_eq!(step.action, Action::Pending);
    assert_eq!(pipeline.poll(Input::Polled).action, Action::Write { from: 40 });
    pipeline.poll(Input::Wrote(WriteOutcome::Count(28)));
    let step = pipeline.poll(Input::Flushed(Outcome::WouldBlock));
    assert_eq!(step.action, Action::Pending);
    assert_eq!(pipeline.poll(Input::Polled).action, Action::Flush);
}

#[test]
fn pipeline_gives_up_on_errors() {
    let mut pipeline = handle();
    assert_eq!(pipeline.poll(Input::Registered(Outcome::Failed)).action, Action::Fail);
    assert!(matches!(pipeline.state, HandlerState::Start));
    let mut pipeline = started();
    assert_eq!(pipeline.poll(Input::Read(ReadOutcome::Failed)).action, Action::Fail);
    pipeline.poll(bytes(b""));
    assert_eq!(pipeline.poll(Input::Wrote(WriteOutcome::Failed)).action, Action::Fail);
    pipeline.poll(Input::Wrote(WriteOutcome::Count(0)));
    assert_eq!(pipeline.poll(Input::Flushed(Outcome::Failed)).action, Action::Fail);
    assert!(matches!(pipeline.state, HandlerState::Flush));
}

#[test]
fn pipeline_poll_is_bounded() {
    let mut pipeline = handle();
    let mut operations = 0;
    let mut input = Input::Polled;
    loop {
        input = match pipeline.poll(input).action {
            Action::Register => Input::Registered(Outcome::Done),
            Action::Read { limit } => bytes(&vec![b'x'; limit.min(1)]),
            Action::Write { .. } => Input::Wrote(WriteOutcome::Count(1)),
            Action::Flush => Input::Flushed(Outcome::Done),
            action => {
                assert_eq!(action, Action::Close);
                break;
            }
        };
        operations += 1;
    }
    // One registration, a read for each byte and one without, the answer, one flush.
    assert_eq!(operations, 1 + 1025 + 68 + 1);
}

#[test]
fn pipeline_sends_the_whole_answer_after_an_empty_read() {
    let mut pipeline = started();
    assert_eq!(pipeline.poll(bytes(b"")).action, Action::Write { from: 0 });
    let step = pipeline.poll(Input::Wrote(WriteOutcome::Count(68)));
    assert_eq!(step.action, Action::Flush);
    assert_eq!(pipeline.poll(Input::Flushed(Outcome::Done)).action, Action::Close);
}

#[test]
fn pipeline_admits_a_request_that_begins_short() {
    let pipeline = started();
    assert!(pipeline.admits(&bytes(b"G")));
    assert!(pipeline.admits(&bytes(b"")));
    assert!(!pipeline.admits(&bytes(&[0; 1025])));
    assert!(!pipeline.admits(&Input::Wrote(WriteOutcome::Count(1))));
}
