use polling_runtime::blocking::handle_connection;
use polling_runtime::exchange::{Action, Input, Outcome, ReadOutcome, Report, WriteOutcome};

fn received(bytes: &[u8]) -> Input {
    Input::Read(ReadOutcome::Data(bytes.to_vec()))
}

#[test]
fn connection_is_served() {
    let mut handler = handle_connection();
    assert_eq!(handler.proceed(Input::Polled).action, Action::Read { limit: 1024 });
    assert_eq!(handler.proceed(received(b"GET /")).action, Action::Read { limit: 1019 });
    let step = handler.proceed(received(b"\r\n\r\n"));
    assert!(matches!(
        step.report,
        Report::Answering { text, length: 68 } if text == "GET /\r\n\r\n"
    ));
    assert_eq!(step.action, Action::Write { from: 0 });
    let step = handler.proceed(Input::Wrote(WriteOutcome::Count(30)));
    assert_eq!(step.action, Action::Write { from: 30 });
    let step = handler.proceed(Input::Wrote(WriteOutcome::Count(38)));
    assert_eq!(step.action, Action::Flush);
    let step = handler.proceed(Input::Flushed(Outcome::Done));
    assert_eq!(step.action, Action::Complete);
    assert!(matches!(step.report, Report::Nothing));
}

#[test]
fn connection_ends_when_the_client_is_gone() {
    let mut handler = handle_connection();
    let step = handler.proceed(received(b""));
    assert!(matches!(
        step.report,
        Report::Disconnected { line: "client disconnected unexpectedly" }
    ));
    assert_eq!(step.action, Action::Complete);
    handler.proceed(received(b"\r\n\r\n"));
    let step = handler.proceed(Input::Wrote(WriteOutcome::Count(0)));
    assert!(matches!(
        step.report,
        Report::Disconnected { line: "client disconnected unexpectedly" }
    ));
    assert_eq!(step.action, Action::Complete);
}

#[test]
fn connection_hands_every_error_on() {
    let mut handler = handle_connection();
    let reads = [ReadOutcome::Failed, ReadOutcome::WouldBlock];
    for outcome in reads {
        assert_eq!(handler.proceed(Input::Read(outcome)).action, Action::Fail);
    }
    handler.proceed(received(b"\r\n\r\n"));
    let writes = [WriteOutcome::Failed, WriteOutcome::WouldBlock];
    for outcome in writes {
        assert_eq!(handler.proceed(Input::Wrote(outcome)).action, Action::Fail);
    }
    handler.proceed(Input::Wrote(WriteOutcome::Count(68)));
    for outcome in [Outcome::Failed, Outcome::WouldBlock] {
        assert_eq!(handler.proceed(Input::Flushed(outcome)).action, Action::Fail);
    }
}

#[test]
fn connection_admits_no_request_that_begins_too_short() {
    let mut handler = handle_connection();
    assert!(!handler.admits(&received(b"GET")));
    assert!(handler.admits(&received(b"GET ")));
    handler.proceed(received(b"GET "));
    assert!(handler.admits(&received(b"/")));
    assert!(!handler.admits(&Input::Flushed(Outcome::Done)));
}
