use polling_runtime::exchange::Outcome;
use polling_runtime::listener::{listen, listen_address, ListenAction, ListenInput, Main};

#[test]
fn listens_on_its_address() {
    assert_eq!(listen_address(), "localhost:3000");
}

#[test]
fn listener_sets_up_once() {
    let mut main = listen();
    assert_eq!(main.poll(ListenInput::Polled), ListenAction::Bind);
    assert_eq!(main.poll(ListenInput::Bound(Outcome::Done)), ListenAction::Register);
    assert_eq!(main, Main::Start);
    assert_eq!(main.poll(ListenInput::Registered(Outcome::Done)), ListenAction::Accept);
    assert_eq!(main.poll(ListenInput::Accepted(Outcome::WouldBlock)), ListenAction::Pending);
    for _ in 0..3 {
        assert_eq!(main.poll(ListenInput::Polled), ListenAction::Accept);
        assert_eq!(main.poll(ListenInput::Accepted(Outcome::Done)), ListenAction::Spawn);
        assert_eq!(main, Main::Accept);
    }
}

#[test]
fn listener_gives_up_on_errors() {
    let mut main = listen();
    assert_eq!(main.poll(ListenInput::Bound(Outcome::Failed)), ListenAction::Fail);
    assert_eq!(main.poll(ListenInput::Bound(Outcome::WouldBlock)), ListenAction::Fail);
    assert_eq!(main.poll(ListenInput::Registered(Outcome::Failed)), ListenAction::Fail);
    assert_eq!(main, Main::Start);
    let mut main = Main::Accept;
    assert_eq!(main.poll(ListenInput::Accepted(Outcome::Failed)), ListenAction::Fail);
}
