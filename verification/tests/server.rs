use polling_runtime::exchange::{Outcome, ReadOutcome, Report, WriteOutcome};
use polling_runtime::server::{
    AcceptOutcome, ConnectionState, Phase, Server, ServerAction, ServerInput,
};

fn server(states: Vec<ConnectionState>) -> Server<usize> {
    Server {
        connections: states.into_iter().enumerate().collect(),
        completed: Vec::new(),
        phase: Phase::Accepting,
    }
}

fn nobody() -> ServerInput<usize> {
    ServerInput::Accepted(AcceptOutcome::WouldBlock)
}

fn count(n: usize) -> ServerInput<usize> {
    ServerInput::Wrote(WriteOutcome::Count(n))
}

fn clients(server: &Server<usize>) -> Vec<usize> {
    server.connections.iter().map(|entry| entry.0).collect()
}

#[test]
fn client_joins_with_nothing_read() {
    let mut server: Server<usize> = Server::new();
    assert_eq!(server.asked(), ServerAction::Accept);
    let step = server.proceed(ServerInput::Accepted(AcceptOutcome::Connection(7)));
    assert_eq!(step.action, ServerAction::Read { index: 0, limit: 0 });
    assert!(matches!(
        &server.connections[0],
        (7, ConnectionState::Read { request, read: 0 }) if request.is_empty()
    ));
    let step = server.proceed(ServerInput::Read(ReadOutcome::WouldBlock));
    assert_eq!(step.action, ServerAction::Remove);
    assert!(server.can_remove());
    assert_eq!(server.remove_completed(), ServerAction::Accept);
    assert_eq!(clients(&server), vec![7]);
}

#[test]
fn round_without_connections_is_empty() {
    let mut server: Server<usize> = Server::new();
    assert_eq!(server.proceed(nobody()).action, ServerAction::Remove);
    assert_eq!(server.remove_completed(), ServerAction::Accept);
}

#[test]
fn empty_read_is_marked_and_tried_again() {
    let mut server: Server<usize> = Server::new();
    server.proceed(ServerInput::Accepted(AcceptOutcome::Connection(7)));
    for marks in 1..3 {
        let step = server.proceed(ServerInput::Read(ReadOutcome::Data(Vec::new())));
        assert!(matches!(
            step.report,
            Report::Disconnected { line: "client disconnected unexpectedly" }
        ));
        assert_eq!(step.action, ServerAction::Read { index: 0, limit: 0 });
        assert_eq!(server.completed, vec![0; marks]);
    }
    server.proceed(ServerInput::Read(ReadOutcome::WouldBlock));
    assert!(!server.can_remove());
}

#[test]
fn doubly_marked_connection_takes_the_next_along() {
    let mut server = server(vec![
        ConnectionState::Read { request: Vec::new(), read: 0 },
        ConnectionState::Flush,
        ConnectionState::Flush,
    ]);
    server.proceed(nobody());
    server.proceed(ServerInput::Read(ReadOutcome::Data(Vec::new())));
    server.proceed(ServerInput::Read(ReadOutcome::Data(Vec::new())));
    server.proceed(ServerInput::Read(ReadOutcome::WouldBlock));
    server.proceed(ServerInput::Flushed(Outcome::WouldBlock));
    server.proceed(ServerInput::Flushed(Outcome::WouldBlock));
    assert!(server.can_remove());
    server.remove_completed();
    assert_eq!(clients(&server), vec![2]);
}

#[test]
fn read_fills_the_room_in_order() {
    let mut server = server(vec![ConnectionState::Read { request: vec![0; 6], read: 1 }]);
    assert_eq!(server.proceed(nobody()).action, ServerAction::Read { index: 0, limit: 5 });
    let step = server.proceed(ServerInput::Read(ReadOutcome::Data(vec![1, 2])));
    assert_eq!(step.action, ServerAction::Read { index: 0, limit: 3 });
    assert!(matches!(step.report, Report::Nothing));
    server.proceed(ServerInput::Read(ReadOutcome::Data(vec![3])));
    assert!(matches!(
        &server.connections[0].1,
        ConnectionState::Read { request, read: 4 } if *request == vec![0, 1, 2, 3, 0, 0]
    ));
}

#[test]
fn answer_is_sent_flushed_and_dropped() {
    let mut server = server(vec![
        ConnectionState::Write { written: 0 },
        ConnectionState::Write { written: 60 },
        ConnectionState::Flush,
    ]);
    assert_eq!(server.proceed(nobody()).action, ServerAction::Write { index: 0, from: 0 });
    assert_eq!(server.proceed(count(20)).action, ServerAction::Write { index: 0, from: 20 });
    let blocked = ServerInput::Wrote(WriteOutcome::WouldBlock);
    assert_eq!(server.proceed(blocked).action, ServerAction::Write { index: 1, from: 60 });
    assert_eq!(server.proceed(count(8)).action, ServerAction::Flush { index: 1 });
    let step = server.proceed(ServerInput::Flushed(Outcome::Done));
    assert_eq!(step.action, ServerAction::Flush { index: 2 });
    let step = server.proceed(ServerInput::Flushed(Outcome::Done));
    assert_eq!(step.action, ServerAction::Remove);
    assert_eq!(server.completed, vec![1, 2]);
    server.remove_completed();
    assert_eq!(clients(&server), vec![0]);
    assert_eq!(server.proceed(nobody()).action, ServerAction::Write { index: 0, from: 20 });
    assert!(server.completed.is_empty());
}

#[test]
fn empty_write_drops_the_connection() {
    let mut server = server(vec![ConnectionState::Write { written: 3 }, ConnectionState::Flush]);
    server.proceed(nobody());
    let step = server.proceed(count(0));
    assert!(matches!(
            step.report,
            Report::Disconnected { line: "client disconnected unexpectedly" }
        ));
    assert_eq!(step.action, ServerAction::Flush { index: 1 });
    server.proceed(ServerInput::Flushed(Outcome::WouldBlock));
    server.remove_completed();
    assert_eq!(clients(&server), vec![1]);
}

#[test]
fn removal_keeps_the_others_in_order() {
    let mut server = server((0..6).map(|_| ConnectionState::Flush).collect());
    server.phase = Phase::Removing;
    server.completed = vec![0, 3, 4];
    assert!(server.can_remove());
    server.remove_completed();
    assert_eq!(clients(&server), vec![1, 2, 5]);
}

#[test]
fn server_gives_up_on_errors() {
    let mut server = server(vec![
        ConnectionState::Read { request: Vec::new(), read: 0 },
        ConnectionState::Write { written: 0 },
        ConnectionState::Flush,
    ]);
    let failed = ServerInput::Accepted(AcceptOutcome::Failed);
    assert_eq!(server.proceed(failed).action, ServerAction::Fail);
    server.proceed(nobody());
    let failed = ServerInput::Read(ReadOutcome::Failed);
    assert_eq!(server.proceed(failed).action, ServerAction::Fail);
    server.proceed(ServerInput::Read(ReadOutcome::WouldBlock));
    let failed = ServerInput::Wrote(WriteOutcome::Failed);
    assert_eq!(server.proceed(failed).action, ServerAction::Fail);
    server.proceed(ServerInput::Wrote(WriteOutcome::WouldBlock));
    let failed = ServerInput::Flushed(Outcome::Failed);
    assert_eq!(server.proceed(failed).action, ServerAction::Fail);
}
