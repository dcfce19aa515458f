use futures::channel::oneshot;
use service_orchestrator::channel::{count_delivered, notify_all};
use service_orchestrator::command::Command;
use service_orchestrator::definition::ServiceDef;
use service_orchestrator::orchestrator::{
    Continuation, Message, Orchestrator, Phase, ServiceState,
};

fn command(prog: &str) -> Command {
    Command { prog: prog.to_string(), args: vec![], delay: 0 }
}

fn service(name: &str, same: &[&str], after: &[&str]) -> ServiceDef {
    ServiceDef {
        name: name.to_string(),
        same: same.iter().map(|s| s.to_string()).collect(),
        after: after.iter().map(|s| s.to_string()).collect(),
        start_command: command("true"),
        run_command: command("true"),
    }
}

fn failure() -> std::io::Result<()> {
    Err(std::io::Error::new(std::io::ErrorKind::Other, "exit status 1"))
}

fn totoro() -> Orchestrator {
    Orchestrator::new(vec![service("Totoro", &[], &[]), service("Mao", &[], &["Totoro"])])
}

fn start(name: &str) -> Message {
    Message::Start { service: name.to_string() }
}

fn started(name: &str, result: std::io::Result<()>) -> Message {
    Message::Started { service: name.to_string(), result }
}

fn finished(name: &str, result: std::io::Result<()>) -> Message {
    Message::Finished { service: name.to_string(), result }
}

fn depend_on(orchestrator: &mut Orchestrator, name: &str) -> oneshot::Receiver<()> {
    let (sender, receiver) = oneshot::channel::<()>();
    orchestrator.receive(Message::DependOn { service: name.to_string(), sender });
    receiver
}

fn fail_on(orchestrator: &mut Orchestrator, name: &str) -> oneshot::Receiver<()> {
    let (sender, receiver) = oneshot::channel::<()>();
    orchestrator.receive(Message::FailOn { service: name.to_string(), sender });
    receiver
}

fn phase(orchestrator: &Orchestrator, name: &str) -> Phase {
    orchestrator.state(&name.to_string()).unwrap().phase
}

#[test]
fn a_new_record_is_unstarted_and_keeps_no_waiter() {
    let state = ServiceState::new(service("Totoro", &[], &[]));
    assert_eq!(state.definition.name, "Totoro");
    assert_eq!(state.phase, Phase::Unstarted);
    assert!(!state.started());
    assert!(state.once_started.is_empty());
    assert!(state.once_failed.is_empty());
}

#[test]
fn a_new_orchestrator_knows_its_services_and_no_other() {
    let orchestrator = totoro();
    assert!(orchestrator.knows(&"Totoro".to_string()));
    assert!(orchestrator.knows(&"Mao".to_string()));
    assert!(!orchestrator.knows(&"Catbus".to_string()));
    assert!(orchestrator.state(&"Catbus".to_string()).is_none());
    assert_eq!(phase(&orchestrator, "Totoro"), Phase::Unstarted);
    assert_eq!(orchestrator.state(&"Mao".to_string()).unwrap().definition.after, vec!["Totoro"]);
}

#[test]
fn the_name_of_the_service_is_read_off_every_kind_of_message() {
    let (sender, _receiver) = oneshot::channel::<()>();
    assert_eq!(Message::FailOn { service: "a".to_string(), sender }.service(), "a");
    let (sender, _receiver) = oneshot::channel::<()>();
    assert_eq!(Message::DependOn { service: "b".to_string(), sender }.service(), "b");
    assert_eq!(start("c").service(), "c");
    assert_eq!(started("d", Ok(())).service(), "d");
    assert_eq!(finished("e", failure()).service(), "e");
}

#[test]
fn start_spawns_the_lifecycle_once() {
    let mut orchestrator = totoro();
    match orchestrator.receive(start("Totoro")) {
        Continuation::Lifecycle(definition) => assert_eq!(definition.name, "Totoro"),
        Continuation::Ready => panic!("the first start must spawn the lifecycle"),
    }
    assert!(orchestrator.state(&"Totoro".to_string()).unwrap().started());
    assert!(matches!(orchestrator.receive(start("Totoro")), Continuation::Ready));
    assert_eq!(phase(&orchestrator, "Totoro"), Phase::Starting);
    assert_eq!(phase(&orchestrator, "Mao"), Phase::Unstarted);
}

#[test]
fn a_service_that_is_over_is_not_started_again() {
    let mut orchestrator = totoro();
    orchestrator.receive(start("Totoro"));
    orchestrator.receive(started("Totoro", Ok(())));
    orchestrator.receive(finished("Totoro", Ok(())));
    assert_eq!(phase(&orchestrator, "Totoro"), Phase::RunSucceeded);
    assert!(matches!(orchestrator.receive(start("Totoro")), Continuation::Ready));
    assert_eq!(phase(&orchestrator, "Totoro"), Phase::RunSucceeded);
}

#[test]
fn only_start_leaves_something_to_drive() {
    let mut orchestrator = totoro();
    let (sender, _receiver) = oneshot::channel::<()>();
    let registration = Message::DependOn { service: "Totoro".to_string(), sender };
    assert!(matches!(orchestrator.receive(registration), Continuation::Ready));
    let (sender, _receiver) = oneshot::channel::<()>();
    let registration = Message::FailOn { service: "Totoro".to_string(), sender };
    assert!(matches!(orchestrator.receive(registration), Continuation::Ready));
    orchestrator.receive(start("Totoro"));
    assert!(matches!(orchestrator.receive(started("Totoro", Ok(()))), Continuation::Ready));
    assert!(matches!(orchestrator.receive(finished("Totoro", Ok(()))), Continuation::Ready));
}

#[test]
fn waiters_for_the_start_are_notified_on_success() {
    let mut orchestrator = totoro();
    let mut first = depend_on(&mut orchestrator, "Totoro");
    orchestrator.receive(start("Totoro"));
    let mut second = depend_on(&mut orchestrator, "Totoro");
    let mut other = depend_on(&mut orchestrator, "Mao");
    assert_eq!(first.try_recv(), Ok(None));
    assert_eq!(orchestrator.state(&"Totoro".to_string()).unwrap().once_started.len(), 2);
    orchestrator.receive(started("Totoro", Ok(())));
    assert_eq!(first.try_recv(), Ok(Some(())));
    assert_eq!(second.try_recv(), Ok(Some(())));
    assert_eq!(other.try_recv(), Ok(None));
    assert_eq!(phase(&orchestrator, "Totoro"), Phase::Running);
    assert!(orchestrator.state(&"Totoro".to_string()).unwrap().once_started.is_empty());
    assert_eq!(orchestrator.state(&"Mao".to_string()).unwrap().once_started.len(), 1);
}

#[test]
fn waiters_for_the_start_are_dropped_when_the_start_fails() {
    let mut orchestrator = totoro();
    let mut waiting = depend_on(&mut orchestrator, "Totoro");
    let mut failed = fail_on(&mut orchestrator, "Totoro");
    orchestrator.receive(start("Totoro"));
    orchestrator.receive(started("Totoro", failure()));
    assert_eq!(waiting.try_recv(), Err(oneshot::Canceled));
    assert_eq!(failed.try_recv(), Ok(None));
    assert_eq!(phase(&orchestrator, "Totoro"), Phase::StartFailed);
    let mut late = depend_on(&mut orchestrator, "Totoro");
    assert_eq!(late.try_recv(), Err(oneshot::Canceled));
}

#[test]
fn a_registration_after_the_start_is_notified_at_once() {
    let mut orchestrator = totoro();
    orchestrator.receive(start("Totoro"));
    orchestrator.receive(started("Totoro", Ok(())));
    let mut running = depend_on(&mut orchestrator, "Totoro");
    assert_eq!(running.try_recv(), Ok(Some(())));
    orchestrator.receive(finished("Totoro", failure()));
    let mut failed = depend_on(&mut orchestrator, "Totoro");
    assert_eq!(failed.try_recv(), Ok(Some(())));
    assert!(orchestrator.state(&"Totoro".to_string()).unwrap().once_started.is_empty());

    let mut orchestrator = totoro();
    orchestrator.receive(start("Totoro"));
    orchestrator.receive(started("Totoro", Ok(())));
    orchestrator.receive(finished("Totoro", Ok(())));
    let mut succeeded = depend_on(&mut orchestrator, "Totoro");
    assert_eq!(succeeded.try_recv(), Ok(Some(())));
}

#[test]
fn waiters_for_failure_are_notified_when_the_run_command_fails() {
    let mut orchestrator = totoro();
    let mut early = fail_on(&mut orchestrator, "Totoro");
    orchestrator.receive(start("Totoro"));
    orchestrator.receive(started("Totoro", Ok(())));
    let mut later = fail_on(&mut orchestrator, "Totoro");
    assert_eq!(orchestrator.state(&"Totoro".to_string()).unwrap().once_failed.len(), 2);
    orchestrator.receive(finished("Totoro", failure()));
    assert_eq!(early.try_recv(), Ok(Some(())));
    assert_eq!(later.try_recv(), Ok(Some(())));
    assert_eq!(phase(&orchestrator, "Totoro"), Phase::RunFailed);
    assert!(orchestrator.state(&"Totoro".to_string()).unwrap().once_failed.is_empty());
    let mut late = fail_on(&mut orchestrator, "Totoro");
    assert_eq!(late.try_recv(), Ok(Some(())));
}

#[test]
fn waiters_for_failure_stay_when_the_run_command_succeeds() {
    let mut orchestrator = totoro();
    let mut waiting = fail_on(&mut orchestrator, "Totoro");
    orchestrator.receive(start("Totoro"));
    orchestrator.receive(started("Totoro", Ok(())));
    orchestrator.receive(finished("Totoro", Ok(())));
    assert_eq!(waiting.try_recv(), Ok(None));
    assert_eq!(phase(&orchestrator, "Totoro"), Phase::RunSucceeded);
    assert_eq!(orchestrator.state(&"Totoro".to_string()).unwrap().once_failed.len(), 1);
}

#[test]
fn a_failure_before_the_start_abandons_the_service() {
    let mut orchestrator = totoro();
    let mut waiting = depend_on(&mut orchestrator, "Mao");
    let mut failed = fail_on(&mut orchestrator, "Mao");
    orchestrator.receive(start("Mao"));
    orchestrator.receive(finished("Mao", failure()));
    assert_eq!(phase(&orchestrator, "Mao"), Phase::Abandoned);
    assert_eq!(waiting.try_recv(), Err(oneshot::Canceled));
    assert_eq!(failed.try_recv(), Ok(Some(())));
    let mut late = depend_on(&mut orchestrator, "Mao");
    assert_eq!(late.try_recv(), Err(oneshot::Canceled));
    let mut late = fail_on(&mut orchestrator, "Mao");
    assert_eq!(late.try_recv(), Ok(Some(())));
}

#[test]
fn reports_out_of_turn_change_nothing() {
    let mut orchestrator = totoro();
    let mut waiting = depend_on(&mut orchestrator, "Totoro");
    let mut failed = fail_on(&mut orchestrator, "Totoro");
    orchestrator.receive(started("Totoro", Ok(())));
    orchestrator.receive(finished("Totoro", failure()));
    assert_eq!(phase(&orchestrator, "Totoro"), Phase::Unstarted);
    assert_eq!(waiting.try_recv(), Ok(None));
    assert_eq!(failed.try_recv(), Ok(None));
    orchestrator.receive(start("Totoro"));
    orchestrator.receive(finished("Totoro", Ok(())));
    assert_eq!(phase(&orchestrator, "Totoro"), Phase::Starting);
    orchestrator.receive(started("Totoro", failure()));
    orchestrator.receive(started("Totoro", Ok(())));
    orchestrator.receive(finished("Totoro", failure()));
    assert_eq!(phase(&orchestrator, "Totoro"), Phase::StartFailed);
    assert_eq!(failed.try_recv(), Ok(None));
}

#[test]
fn dispatch_hands_back_the_waiters_without_notifying_them() {
    let mut orchestrator = totoro();
    let mut first = depend_on(&mut orchestrator, "Totoro");
    let mut second = depend_on(&mut orchestrator, "Totoro");
    orchestrator.receive(start("Totoro"));
    let effects = orchestrator.dispatch(started("Totoro", Ok(())));
    assert!(matches!(effects.continuation, Continuation::Ready));
    assert_eq!(effects.fire.len(), 2);
    assert!(effects.cancel.is_empty());
    assert_eq!(first.try_recv(), Ok(None));
    assert_eq!(second.try_recv(), Ok(None));
    assert_eq!(notify_all(effects.fire), 2);
    assert_eq!(first.try_recv(), Ok(Some(())));
    assert_eq!(second.try_recv(), Ok(Some(())));
}

#[test]
fn every_waiter_is_let_go_of_once() {
    let mut orchestrator = totoro();
    let mut receivers = vec![];
    let mut released = 0;
    for _ in 0..3 {
        let (sender, receiver) = oneshot::channel::<()>();
        receivers.push(receiver);
        let registration = Message::DependOn { service: "Totoro".to_string(), sender };
        let effects = orchestrator.dispatch(registration);
        released += effects.fire.len() + effects.cancel.len();
    }
    for _ in 0..2 {
        let (sender, receiver) = oneshot::channel::<()>();
        receivers.push(receiver);
        let registration = Message::FailOn { service: "Totoro".to_string(), sender };
        let effects = orchestrator.dispatch(registration);
        released += effects.fire.len() + effects.cancel.len();
    }
    assert_eq!(released, 0);
    for message in [
        start("Totoro"),
        started("Totoro", Ok(())),
        started("Totoro", Ok(())),
        finished("Totoro", failure()),
        finished("Totoro", failure()),
    ] {
        let effects = orchestrator.dispatch(message);
        released += effects.fire.len() + effects.cancel.len();
        notify_all(effects.fire);
    }
    assert_eq!(released, 5);
    let state = orchestrator.state(&"Totoro".to_string()).unwrap();
    assert_eq!(state.once_started.len() + state.once_failed.len(), 0);
    for receiver in receivers.iter_mut() {
        assert_eq!(receiver.try_recv(), Ok(Some(())));
    }
}

#[test]
fn a_waiter_whose_receiver_is_gone_is_passed_over() {
    let mut orchestrator = totoro();
    let gone = depend_on(&mut orchestrator, "Totoro");
    let mut waiting = depend_on(&mut orchestrator, "Totoro");
    drop(gone);
    orchestrator.receive(start("Totoro"));
    orchestrator.receive(started("Totoro", Ok(())));
    assert_eq!(waiting.try_recv(), Ok(Some(())));

    let (kept, mut receiver) = oneshot::channel::<()>();
    let (lost, dropped) = oneshot::channel::<()>();
    drop(dropped);
    assert_eq!(notify_all(vec![kept, lost]), 1);
    assert_eq!(receiver.try_recv(), Ok(Some(())));
    assert_eq!(notify_all(vec![]), 0);
}

#[test]
fn the_inbound_queue_carries_messages_to_the_orchestrator() {
    let mut orchestrator = totoro();
    let mut sender = orchestrator.sender.clone();
    sender.try_send(start("Totoro")).unwrap();
    sender.try_send(start("Mao")).unwrap();
    let first = orchestrator.receiver.try_recv().unwrap();
    assert_eq!(first.service(), "Totoro");
    assert!(matches!(orchestrator.receive(first), Continuation::Lifecycle(_)));
    let second = orchestrator.receiver.try_recv().unwrap();
    assert_eq!(second.service(), "Mao");
    assert!(orchestrator.receiver.try_recv().is_err());
}

#[test]
fn deliveries_are_counted_among_the_outcomes() {
    assert_eq!(count_delivered(&vec![]), 0);
    assert_eq!(count_delivered(&vec![Err(()), Err(())]), 0);
    assert_eq!(count_delivered(&vec![Ok(()), Err(()), Ok(()), Ok(())]), 3);
}
