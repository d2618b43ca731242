use polling_runtime::exchange::{
    Action, HandlerState, Input, Outcome, ReadOutcome, Report, WriteOutcome,
};
use polling_runtime::handler::Handler;
use polling_runtime::http::response_bytes;

fn data(bytes: &[u8]) -> Input {
    Input::Read(ReadOutcome::Data(bytes.to_vec()))
}

fn act(handler: &mut Handler, input: Input) -> Action {
    let step = handler.poll(input);
    assert!(matches!(step.report, Report::Nothing));
    step.action
}

fn reading() -> Handler {
    let mut handler = Handler::new();
    assert_eq!(act(&mut handler, Input::Polled), Action::Register);
    assert_eq!(act(&mut handler, Input::Registered(Outcome::Done)), Action::Read { limit: 1024 });
    handler
}

#[test]
fn handler_answers_a_request() {
    let mut handler = reading();
    assert_eq!(act(&mut handler, data(b"GET / HTTP")), Action::Read { limit: 1014 });
    assert_eq!(act(&mut handler, data(b"/1.1\r\n\r\n")), Action::Write { from: 0 });
    let mut sent = Vec::new();
    let mut action = Action::Write { from: 0 };
    while let Action::Write { from } = action {
        let n = (response_bytes().len() - from).min(25);
        sent.extend_from_slice(&response_bytes()[from..from + n]);
        action = act(&mut handler, Input::Wrote(WriteOutcome::Count(n)));
    }
    assert_eq!(sent, response_bytes());
    assert_eq!(action, Action::Flush);
    assert_eq!(act(&mut handler, Input::Flushed(Outcome::Done)), Action::Close);
}

#[test]
fn handler_resumes_where_it_was_blocked() {
    let mut handler = reading();
    let blocked = Input::Read(ReadOutcome::WouldBlock);
    assert_eq!(act(&mut handler, data(b"abcde")), Action::Read { limit: 1019 });
    assert_eq!(act(&mut handler, blocked), Action::Pending);
    assert_eq!(act(&mut handler, Input::Polled), Action::Read { limit: 1019 });
    assert_eq!(act(&mut handler, data(b"\r\n\r\n")), Action::Write { from: 0 });
    let some = Input::Wrote(WriteOutcome::Count(10));
    assert_eq!(act(&mut handler, some), Action::Write { from: 10 });
    let blocked = Input::Wrote(WriteOutcome::WouldBlock);
    assert_eq!(act(&mut handler, blocked), Action::Pending);
    assert_eq!(act(&mut handler, Input::Polled), Action::Write { from: 10 });
    let rest = Input::Wrote(WriteOutcome::Count(58));
    assert_eq!(act(&mut handler, rest), Action::Flush);
    let blocked = Input::Flushed(Outcome::WouldBlock);
    assert_eq!(act(&mut handler, blocked), Action::Pending);
    assert_eq!(act(&mut handler, Input::Polled), Action::Flush);
}

#[test]
fn handler_ends_when_the_client_is_gone() {
    let mut handler = reading();
    let step = handler.poll(data(b""));
    assert!(matches!(
        step.report,
        Report::Disconnected { line: "client dissconnected unexpectedly becuase 0 bytes is read" }
    ));
    assert_eq!(step.action, Action::Complete);
    assert!(matches!(handler.state, HandlerState::Read { .. }));

    handler.poll(data(b"\r\n\r\n"));
    let step = handler.poll(Input::Wrote(WriteOutcome::Count(0)));
    assert!(matches!(
        step.report,
        Report::Disconnected { line: "client disself.connection.cted unexpectedly" }
    ));
    assert_eq!(step.action, Action::Complete);
    assert!(matches!(handler.state, HandlerState::Write { written: 0 }));
}

#[test]
fn handler_gives_up_on_errors() {
    let mut handler = Handler::new();
    for outcome in [Outcome::Failed, Outcome::WouldBlock] {
        assert_eq!(act(&mut handler, Input::Registered(outcome)), Action::Fail);
        assert!(matches!(handler.state, HandlerState::Start));
    }
    let mut handler = reading();
    let failed = Input::Read(ReadOutcome::Failed);
    assert_eq!(act(&mut handler, failed), Action::Fail);
    handler.poll(data(b"\r\n\r\n"));
    let failed = Input::Wrote(WriteOutcome::Failed);
    assert_eq!(act(&mut handler, failed), Action::Fail);
    handler.poll(Input::Wrote(WriteOutcome::Count(68)));
    let failed = Input::Flushed(Outcome::Failed);
    assert_eq!(act(&mut handler, failed), Action::Fail);
}

#[test]
fn handler_has_room_for_a_limited_request() {
    let mut handler = reading();
    assert_eq!(act(&mut handler, data(&[b'x'; 1024])), Action::Read { limit: 0 });
    assert_eq!(handler.poll(data(b"")).action, Action::Complete);

    let mut handler = reading();
    let mut request = vec![b'x'; 1020];
    request.extend_from_slice(b"\r\n\r\n");
    assert_eq!(act(&mut handler, data(&request)), Action::Write { from: 0 });
}

#[test]
fn handler_admits_what_it_can_be_told() {
    let mut handler = Handler::new();
    assert!(handler.admits(&Input::Polled));
    assert!(handler.admits(&Input::Registered(Outcome::Failed)));
    assert!(!handler.admits(&data(b"abcd")));

    handler.state = HandlerState::Read { request: Vec::new() };
    assert!(handler.admits(&data(b"")));
    assert!(!handler.admits(&data(b"abc")));
    assert!(handler.admits(&data(b"abcd")));
    assert!(handler.admits(&data(&[0; 1024])));
    assert!(!handler.admits(&data(&[0; 1025])));
    assert!(handler.admits(&Input::Read(ReadOutcome::WouldBlock)));
    assert!(!handler.admits(&Input::Registered(Outcome::Done)));

    handler.state = HandlerState::Read { request: vec![0; 1023] };
    assert!(handler.admits(&data(b"a")));
    assert!(!handler.admits(&data(b"ab")));

    handler.state = HandlerState::Write { written: 60 };
    assert!(handler.admits(&Input::Wrote(WriteOutcome::Count(8))));
    assert!(!handler.admits(&Input::Wrote(WriteOutcome::Count(9))));
    assert!(!handler.admits(&Input::Wrote(WriteOutcome::Count(usize::MAX))));
    assert!(handler.admits(&Input::Wrote(WriteOutcome::Failed)));
    assert!(!handler.admits(&Input::Flushed(Outcome::Done)));

    handler.state = HandlerState::Flush;
    assert!(handler.admits(&Input::Flushed(Outcome::WouldBlock)));
    assert!(!handler.admits(&Input::Wrote(WriteOutcome::Count(0))));
}
