use futures::channel::oneshot;
use service_orchestrator::command::Command;
use service_orchestrator::definition::ServiceDef;
use service_orchestrator::lifecycle::{Directive, Event, Lifecycle, Stage, Step};
use service_orchestrator::orchestrator::Message;

fn command(prog: &str) -> Command {
    Command { prog: prog.to_string(), args: vec![], delay: 0 }
}

fn service(name: &str, same: &[&str], after: &[&str]) -> ServiceDef {
    ServiceDef {
        name: name.to_string(),
        same: same.iter().map(|s| s.to_string()).collect(),
        after: after.iter().map(|s| s.to_string()).collect(),
        start_command: command(&format!("{}-start", name)),
        run_command: command(&format!("{}-run", name)),
    }
}

fn failure() -> std::io::Result<()> {
    Err(std::io::Error::new(std::io::ErrorKind::Other, "exit status 1"))
}

/// The kind and the service of a message, and the result it carries if any.
fn outline(message: &Message) -> (&'static str, String, Option<bool>) {
    match message {
        Message::FailOn { service, .. } => ("FailOn", service.clone(), None),
        Message::DependOn { service, .. } => ("DependOn", service.clone(), None),
        Message::Start { service } => ("Start", service.clone(), None),
        Message::Started { service, result } => ("Started", service.clone(), Some(result.is_ok())),
        Message::Finished { service, result } => {
            ("Finished", service.clone(), Some(result.is_ok()))
        }
    }
}

fn outlines(messages: &[Message]) -> Vec<(&'static str, String, Option<bool>)> {
    messages.iter().map(outline).collect()
}

fn plain(kind: &'static str, service: &str) -> (&'static str, String, Option<bool>) {
    (kind, service.to_string(), None)
}

fn report(kind: &'static str, service: &str, ok: bool) -> (&'static str, String, Option<bool>) {
    (kind, service.to_string(), Some(ok))
}

fn executes(step: &Step) -> Option<(&'static str, String)> {
    match &step.directive {
        Directive::Start(command) => Some(("start", command.prog.clone())),
        Directive::Run(command) => Some(("run", command.prog.clone())),
        Directive::Wait | Directive::Stop => None,
    }
}

/// A lifecycle of `Mao`, which depends on `Totoro` and `Popcorn`, brought to
/// the stage in which its start command is being executed.
fn starting() -> Lifecycle {
    let (mut lifecycle, _opening) = Lifecycle::begin(service("Mao", &[], &["Totoro", "Popcorn"]));
    lifecycle.step(Event::DependenciesSettled(vec![Ok(()), Ok(())]));
    lifecycle
}

#[test]
fn failure_subscriptions_cover_peers_then_dependencies() {
    let definition = service("Mao", &["Catbus", "Kiki"], &["Totoro"]);
    let subscriptions = definition.cancel_if_failed();
    assert_eq!(
        outlines(&subscriptions.messages),
        vec![plain("FailOn", "Catbus"), plain("FailOn", "Kiki"), plain("FailOn", "Totoro")]
    );
    assert_eq!(subscriptions.notifications.len(), 3);
}

#[test]
fn every_failure_subscription_has_its_own_notification() {
    let definition = service("Mao", &["Catbus"], &["Totoro"]);
    let mut subscriptions = definition.cancel_if_failed();
    let second = subscriptions.messages.pop().unwrap();
    let first = subscriptions.messages.pop().unwrap();
    match first {
        Message::FailOn { sender, .. } => sender.send(()).unwrap(),
        _ => panic!("a subscription to failure is a FailOn"),
    }
    assert_eq!(subscriptions.notifications[0].try_recv(), Ok(Some(())));
    assert_eq!(subscriptions.notifications[1].try_recv(), Ok(None));
    drop(second);
    assert_eq!(subscriptions.notifications[1].try_recv(), Err(oneshot::Canceled));
}

#[test]
fn peers_are_asked_to_start() {
    let definition = service("Mao", &["Catbus", "Kiki"], &["Totoro"]);
    assert_eq!(
        outlines(&definition.start_wanted()),
        vec![plain("Start", "Catbus"), plain("Start", "Kiki")]
    );
    assert!(service("Totoro", &[], &["Mao"]).start_wanted().is_empty());
}

#[test]
fn dependencies_are_subscribed_to_and_then_asked_to_start() {
    let definition = service("Mao", &["Catbus"], &["Popcorn", "Totoro"]);
    let mut subscriptions = definition.start_required_after();
    assert_eq!(
        outlines(&subscriptions.messages),
        vec![
            plain("DependOn", "Popcorn"),
            plain("Start", "Popcorn"),
            plain("DependOn", "Totoro"),
            plain("Start", "Totoro"),
        ]
    );
    assert_eq!(subscriptions.notifications.len(), 2);
    match subscriptions.messages.remove(2) {
        Message::DependOn { sender, .. } => sender.send(()).unwrap(),
        _ => panic!("the third message is a DependOn"),
    }
    assert_eq!(subscriptions.notifications[0].try_recv(), Ok(None));
    assert_eq!(subscriptions.notifications[1].try_recv(), Ok(Some(())));
}

#[test]
fn the_opening_subscribes_to_failure_before_anything_is_started() {
    let (lifecycle, opening) = Lifecycle::begin(service("Mao", &["Catbus"], &["Popcorn", "Totoro"]));
    assert_eq!(lifecycle.stage, Stage::AwaitingDependencies);
    assert_eq!(lifecycle.definition.name, "Mao");
    assert_eq!(
        outlines(&opening.messages),
        vec![
            plain("FailOn", "Catbus"),
            plain("FailOn", "Popcorn"),
            plain("FailOn", "Totoro"),
            plain("Start", "Catbus"),
            plain("DependOn", "Popcorn"),
            plain("Start", "Popcorn"),
            plain("DependOn", "Totoro"),
            plain("Start", "Totoro"),
        ]
    );
    assert_eq!(opening.failures.len(), 3);
    assert_eq!(opening.dependencies.len(), 2);
}

#[test]
fn a_service_without_relations_opens_with_nothing() {
    let (mut lifecycle, opening) = Lifecycle::begin(service("Totoro", &[], &[]));
    assert!(opening.messages.is_empty());
    assert!(opening.failures.is_empty());
    assert!(opening.dependencies.is_empty());
    let step = lifecycle.step(Event::DependenciesSettled(vec![]));
    assert_eq!(executes(&step), Some(("start", "Totoro-start".to_string())));
}

#[test]
fn the_start_command_follows_the_dependencies() {
    let (mut lifecycle, _opening) = Lifecycle::begin(service("Mao", &[], &["Totoro", "Popcorn"]));
    let step = lifecycle.step(Event::DependenciesSettled(vec![Ok(()), Ok(())]));
    assert!(step.messages.is_empty());
    assert_eq!(executes(&step), Some(("start", "Mao-start".to_string())));
    assert_eq!(lifecycle.stage, Stage::Starting);
}

#[test]
fn a_dropped_dependency_waiter_gives_the_service_up() {
    let (mut lifecycle, _opening) = Lifecycle::begin(service("Mao", &[], &["Totoro", "Popcorn"]));
    let step = lifecycle.step(Event::DependenciesSettled(vec![Ok(()), Err(oneshot::Canceled)]));
    assert_eq!(outlines(&step.messages), vec![report("Finished", "Mao", false)]);
    assert!(matches!(step.directive, Directive::Stop));
    assert_eq!(lifecycle.stage, Stage::GivenUp);
    let step = lifecycle.step(Event::DependenciesSettled(vec![Ok(()), Ok(())]));
    assert!(step.messages.is_empty());
    assert!(matches!(step.directive, Directive::Stop));
    assert_eq!(lifecycle.stage, Stage::GivenUp);
}

#[test]
fn a_missing_outcome_counts_as_a_failed_dependency() {
    let (mut lifecycle, _opening) = Lifecycle::begin(service("Mao", &[], &["Totoro", "Popcorn"]));
    let step = lifecycle.step(Event::DependenciesSettled(vec![Ok(())]));
    assert_eq!(outlines(&step.messages), vec![report("Finished", "Mao", false)]);
    assert_eq!(lifecycle.stage, Stage::GivenUp);
}

#[test]
fn a_successful_start_is_reported_and_followed_by_the_run_command() {
    let mut lifecycle = starting();
    let step = lifecycle.step(Event::Exited(Ok(())));
    assert_eq!(outlines(&step.messages), vec![report("Started", "Mao", true)]);
    assert_eq!(executes(&step), Some(("run", "Mao-run".to_string())));
    assert_eq!(lifecycle.stage, Stage::Running);
}

#[test]
fn a_failed_start_is_reported_and_ends_the_lifecycle() {
    let mut lifecycle = starting();
    let step = lifecycle.step(Event::Exited(failure()));
    assert_eq!(outlines(&step.messages), vec![report("Started", "Mao", false)]);
    assert!(matches!(step.directive, Directive::Stop));
    assert_eq!(lifecycle.stage, Stage::StartFailed);
}

#[test]
fn the_end_of_the_run_command_is_reported() {
    let mut lifecycle = starting();
    lifecycle.step(Event::Exited(Ok(())));
    let step = lifecycle.step(Event::Exited(Ok(())));
    assert_eq!(outlines(&step.messages), vec![report("Finished", "Mao", true)]);
    assert!(matches!(step.directive, Directive::Stop));
    assert_eq!(lifecycle.stage, Stage::RunSucceeded);

    let mut lifecycle = starting();
    lifecycle.step(Event::Exited(Ok(())));
    let step = lifecycle.step(Event::Exited(failure()));
    assert_eq!(outlines(&step.messages), vec![report("Finished", "Mao", false)]);
    assert!(matches!(step.directive, Directive::Stop));
    assert_eq!(lifecycle.stage, Stage::RunFailed);
}

#[test]
fn a_failure_elsewhere_gives_the_service_up_in_every_open_stage() {
    let (mut awaiting, _opening) = Lifecycle::begin(service("Mao", &[], &["Totoro"]));
    let mut starting_one = starting();
    let mut running = starting();
    running.step(Event::Exited(Ok(())));
    for lifecycle in [&mut awaiting, &mut starting_one, &mut running] {
        let step = lifecycle.step(Event::Failure);
        assert_eq!(outlines(&step.messages), vec![report("Finished", "Mao", false)]);
        assert!(matches!(step.directive, Directive::Stop));
        assert_eq!(lifecycle.stage, Stage::GivenUp);
    }
}

#[test]
fn a_lifecycle_that_is_over_answers_nothing() {
    let mut lifecycle = starting();
    lifecycle.step(Event::Exited(failure()));
    for event in [Event::Failure, Event::Exited(Ok(())), Event::DependenciesSettled(vec![])] {
        let step = lifecycle.step(event);
        assert!(step.messages.is_empty());
        assert!(matches!(step.directive, Directive::Stop));
        assert_eq!(lifecycle.stage, Stage::StartFailed);
    }
}

#[test]
fn an_event_out_of_turn_changes_nothing() {
    let (mut lifecycle, _opening) = Lifecycle::begin(service("Mao", &[], &["Totoro"]));
    let step = lifecycle.step(Event::Exited(Ok(())));
    assert!(step.messages.is_empty());
    assert!(matches!(step.directive, Directive::Wait));
    assert_eq!(lifecycle.stage, Stage::AwaitingDependencies);

    let mut lifecycle = starting();
    let step = lifecycle.step(Event::DependenciesSettled(vec![Ok(()), Ok(())]));
    assert!(step.messages.is_empty());
    assert!(matches!(step.directive, Directive::Wait));
    assert_eq!(lifecycle.stage, Stage::Starting);
}

#[test]
fn each_command_is_directed_once_whatever_is_reported() {
    let mut lifecycle = starting();
    let mut starts = 1;
    let mut runs = 0;
    let events = vec![
        Event::DependenciesSettled(vec![Ok(()), Ok(())]),
        Event::Exited(Ok(())),
        Event::DependenciesSettled(vec![Ok(()), Ok(())]),
        Event::Exited(Ok(())),
        Event::Exited(Ok(())),
        Event::DependenciesSettled(vec![Ok(()), Ok(())]),
    ];
    for event in events {
        match lifecycle.step(event).directive {
            Directive::Start(_) => starts += 1,
            Directive::Run(_) => runs += 1,
            Directive::Wait | Directive::Stop => {}
        }
    }
    assert_eq!(starts, 1);
    assert_eq!(runs, 1);
    assert_eq!(lifecycle.stage, Stage::RunSucceeded);
}

#[test]
fn the_report_of_giving_up_says_why() {
    let (mut lifecycle, _opening) = Lifecycle::begin(service("Mao", &[], &["Totoro"]));
    let mut step = lifecycle.step(Event::DependenciesSettled(vec![Err(oneshot::Canceled)]));
    match step.messages.pop().unwrap() {
        Message::Finished { service, result } => {
            assert_eq!(service, "Mao");
            let error = result.unwrap_err();
            assert_eq!(error.kind(), std::io::ErrorKind::Other);
            assert_eq!(error.to_string(), "a dependency has not started");
        }
        _ => panic!("giving up is reported as Finished"),
    }
    let mut lifecycle = starting();
    let mut step = lifecycle.step(Event::Failure);
    match step.messages.pop().unwrap() {
        Message::Finished { result, .. } => {
            let error = result.unwrap_err();
            assert_eq!(error.to_string(), "a service that this one depends on has failed");
        }
        _ => panic!("giving up is reported as Finished"),
    }
}
