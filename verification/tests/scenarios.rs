use futures::channel::oneshot;
use service_orchestrator::command::Command;
use service_orchestrator::definition::ServiceDef;
use service_orchestrator::lifecycle::{Directive, Event, Lifecycle, Stage, Step};
use service_orchestrator::orchestrator::{Continuation, Message, Orchestrator, Phase};
use std::collections::VecDeque;

fn command(prog: &str) -> Command {
    Command { prog: prog.to_string(), args: vec![], delay: 0 }
}

fn service(name: &str, same: &[&str], after: &[&str]) -> ServiceDef {
    ServiceDef {
        name: name.to_string(),
        same: same.iter().map(|s| s.to_string()).collect(),
        after: after.iter().map(|s| s.to_string()).collect(),
        start_command: command(&format!("{}-start", name)),
        run_command: command(&format!("{}-run", name)),
    }
}

/// One lifecycle with what its driver holds for it.
struct Task {
    lifecycle: Lifecycle,
    failures: Vec<oneshot::Receiver<()>>,
    dependencies: Vec<oneshot::Receiver<()>>,
    outcomes: Vec<Option<Result<(), oneshot::Canceled>>>,
    executing: Option<Command>,
    over: bool,
}

/// A driver that runs everything in one thread: it hands the queued messages
/// to the orchestrator one by one and, when the queue is empty, lets every
/// lifecycle take one step. A command is written to the log when its
/// execution begins. It ends at the next step of its lifecycle, unless its
/// program is listed in `blocked`, and fails if its program is listed in
/// `failing`.
struct World {
    orchestrator: Orchestrator,
    queue: VecDeque<Message>,
    tasks: Vec<Task>,
    failing: Vec<String>,
    blocked: Vec<String>,
    log: Vec<String>,
}

impl World {
    fn new(definitions: Vec<ServiceDef>, failing: &[&str]) -> World {
        World {
            orchestrator: Orchestrator::new(definitions),
            queue: VecDeque::new(),
            tasks: vec![],
            failing: failing.iter().map(|s| s.to_string()).collect(),
            blocked: vec![],
            log: vec![],
        }
    }

    fn send(&mut self, message: Message) {
        self.queue.push_back(message);
    }

    fn start(&mut self, name: &str) {
        self.send(Message::Start { service: name.to_string() });
    }

    fn take(&mut self, task: usize, step: Step) {
        for message in step.messages {
            self.queue.push_back(message);
        }
        match step.directive {
            Directive::Start(command) | Directive::Run(command) => {
                self.log.push(command.prog.clone());
                self.tasks[task].executing = Some(command)
            }
            Directive::Wait => {}
            Directive::Stop => {
                self.tasks[task].executing = None;
                self.tasks[task].over = true;
            }
        }
    }

    fn block(&mut self, prog: &str) {
        self.blocked.push(prog.to_string());
    }

    fn release(&mut self, prog: &str) {
        self.blocked.retain(|blocked| blocked.as_str() != prog);
    }

    fn exit(&self, command: &Command) -> std::io::Result<()> {
        if self.failing.contains(&command.prog) {
            Err(std::io::Error::new(std::io::ErrorKind::Other, "exit status 1"))
        } else {
            Ok(())
        }
    }

    /// Lets the lifecycle make one step, if an event is due. Says whether it did.
    fn poll(&mut self, task: usize) -> bool {
        if self.tasks[task].over {
            return false;
        }
        if let Some(command) = self.tasks[task].executing.take() {
            let failed = self.tasks[task]
                .failures
                .iter_mut()
                .any(|failure| !matches!(failure.try_recv(), Ok(None)));
            let event = if failed {
                Event::Failure
            } else if self.blocked.contains(&command.prog) {
                self.tasks[task].executing = Some(command);
                return false;
            } else {
                Event::Exited(self.exit(&command))
            };
            let step = self.tasks[task].lifecycle.step(event);
            self.take(task, step);
            return true;
        }
        let this = &mut self.tasks[task];
        for (i, dependency) in this.dependencies.iter_mut().enumerate() {
            if this.outcomes[i].is_none() {
                this.outcomes[i] = match dependency.try_recv() {
                    Ok(None) => None,
                    Ok(Some(())) => Some(Ok(())),
                    Err(canceled) => Some(Err(canceled)),
                };
            }
        }
        if this.lifecycle.stage == Stage::AwaitingDependencies
            && this.outcomes.iter().all(|outcome| outcome.is_some())
        {
            let outcomes = this.outcomes.iter().map(|outcome| outcome.unwrap()).collect();
            let step = this.lifecycle.step(Event::DependenciesSettled(outcomes));
            self.take(task, step);
            return true;
        }
        false
    }

    /// Runs until no message is queued and no lifecycle can make a step.
    fn settle(&mut self) {
        loop {
            while let Some(message) = self.queue.pop_front() {
                assert!(self.orchestrator.knows(message.service()));
                if let Continuation::Lifecycle(definition) = self.orchestrator.receive(message) {
                    let (lifecycle, opening) = Lifecycle::begin(definition);
                    for message in opening.messages {
                        self.queue.push_back(message);
                    }
                    let outcomes = opening.dependencies.iter().map(|_| None).collect();
                    self.tasks.push(Task {
                        lifecycle,
                        failures: opening.failures,
                        dependencies: opening.dependencies,
                        outcomes,
                        executing: None,
                        over: false,
                    });
                }
            }
            let mut progress = false;
            for task in 0..self.tasks.len() {
                progress = self.poll(task) || progress;
            }
            if !progress && self.queue.is_empty() {
                return;
            }
        }
    }

    fn phase(&self, name: &str) -> Phase {
        self.orchestrator.state(&name.to_string()).unwrap().phase
    }

    fn count(&self, prog: &str) -> usize {
        self.log.iter().filter(|entry| entry.as_str() == prog).count()
    }

    fn position(&self, prog: &str) -> usize {
        self.log.iter().position(|entry| entry.as_str() == prog).unwrap()
    }
}

fn totoro_popcorn_mao() -> Vec<ServiceDef> {
    vec![
        service("Totoro", &[], &[]),
        service("Popcorn", &[], &["Totoro", "Totoro"]),
        service("Mao", &[], &["Popcorn", "Totoro"]),
    ]
}

#[test]
fn starting_mao_starts_each_service_once_and_in_order() {
    let mut world = World::new(totoro_popcorn_mao(), &[]);
    world.start("Mao");
    world.settle();
    for name in ["Totoro", "Popcorn", "Mao"] {
        assert_eq!(world.count(&format!("{}-start", name)), 1);
        assert_eq!(world.count(&format!("{}-run", name)), 1);
        assert_eq!(world.phase(name), Phase::RunSucceeded);
    }
    assert!(world.position("Totoro-start") < world.position("Popcorn-start"));
    assert!(world.position("Popcorn-start") < world.position("Mao-start"));
    assert_eq!(world.tasks.len(), 3);
}

#[test]
fn repeated_start_requests_run_the_commands_once() {
    let mut world = World::new(totoro_popcorn_mao(), &[]);
    world.start("Totoro");
    world.start("Totoro");
    world.settle();
    world.start("Totoro");
    world.start("Mao");
    world.start("Totoro");
    world.settle();
    assert_eq!(world.count("Totoro-start"), 1);
    assert_eq!(world.count("Totoro-run"), 1);
    assert_eq!(world.count("Mao-start"), 1);
    assert_eq!(world.tasks.len(), 3);
}

#[test]
fn a_failing_dependency_keeps_the_dependent_from_starting() {
    let mut world = World::new(totoro_popcorn_mao(), &["Totoro-start"]);
    let (sender, mut failed) = oneshot::channel::<()>();
    world.send(Message::FailOn { service: "Popcorn".to_string(), sender });
    let (sender, mut mao_failed) = oneshot::channel::<()>();
    world.send(Message::FailOn { service: "Mao".to_string(), sender });
    world.start("Mao");
    world.settle();
    assert_eq!(world.count("Totoro-start"), 1);
    assert_eq!(world.count("Totoro-run"), 0);
    assert_eq!(world.count("Popcorn-start"), 0);
    assert_eq!(world.count("Mao-start"), 0);
    assert_eq!(failed.try_recv(), Ok(Some(())));
    assert_eq!(mao_failed.try_recv(), Ok(Some(())));
    assert_eq!(world.phase("Totoro"), Phase::StartFailed);
    assert_eq!(world.phase("Popcorn"), Phase::Abandoned);
    assert_eq!(world.phase("Mao"), Phase::Abandoned);
}

#[test]
fn a_failing_run_command_notifies_the_failure_waiters() {
    let mut world = World::new(vec![service("Totoro", &[], &[])], &["Totoro-run"]);
    let (sender, mut failed) = oneshot::channel::<()>();
    world.send(Message::FailOn { service: "Totoro".to_string(), sender });
    let (sender, mut started) = oneshot::channel::<()>();
    world.send(Message::DependOn { service: "Totoro".to_string(), sender });
    world.start("Totoro");
    world.settle();
    assert_eq!(started.try_recv(), Ok(Some(())));
    assert_eq!(failed.try_recv(), Ok(Some(())));
    assert_eq!(world.phase("Totoro"), Phase::RunFailed);
}

#[test]
fn peers_are_started_but_not_waited_for() {
    let definitions = vec![service("Totoro", &["Mao"], &[]), service("Mao", &[], &[])];
    let mut world = World::new(definitions, &["Mao-start"]);
    world.start("Totoro");
    world.settle();
    assert_eq!(world.count("Mao-start"), 1);
    assert_eq!(world.count("Totoro-start"), 1);
    assert_eq!(world.count("Totoro-run"), 1);
    assert_eq!(world.phase("Mao"), Phase::StartFailed);
    assert_eq!(world.phase("Totoro"), Phase::RunSucceeded);
}

#[test]
fn the_failure_of_a_dependency_cancels_a_running_dependent() {
    let definitions = vec![service("Totoro", &[], &[]), service("Mao", &[], &["Totoro"])];
    let mut world = World::new(definitions, &["Totoro-run"]);
    world.block("Totoro-run");
    world.block("Mao-run");
    let (sender, mut mao_failed) = oneshot::channel::<()>();
    world.send(Message::FailOn { service: "Mao".to_string(), sender });
    world.start("Mao");
    world.settle();
    assert_eq!(world.phase("Totoro"), Phase::Running);
    assert_eq!(world.phase("Mao"), Phase::Running);
    assert_eq!(mao_failed.try_recv(), Ok(None));
    world.release("Totoro-run");
    world.settle();
    assert_eq!(world.phase("Totoro"), Phase::RunFailed);
    assert_eq!(world.count("Mao-start"), 1);
    assert_eq!(world.count("Mao-run"), 1);
    assert_eq!(world.phase("Mao"), Phase::RunFailed);
    assert_eq!(world.tasks[0].lifecycle.stage, Stage::GivenUp);
    assert_eq!(mao_failed.try_recv(), Ok(Some(())));
}

#[test]
fn the_failure_of_a_dependency_cancels_a_starting_dependent() {
    let definitions = vec![service("Totoro", &[], &[]), service("Mao", &[], &["Totoro"])];
    let mut world = World::new(definitions, &["Totoro-run"]);
    world.block("Mao-start");
    let (sender, mut mao_started) = oneshot::channel::<()>();
    world.send(Message::DependOn { service: "Mao".to_string(), sender });
    world.start("Mao");
    world.settle();
    assert_eq!(world.phase("Totoro"), Phase::RunFailed);
    assert_eq!(world.count("Mao-start"), 1);
    assert_eq!(world.count("Mao-run"), 0);
    assert_eq!(world.phase("Mao"), Phase::Abandoned);
    assert_eq!(mao_started.try_recv(), Err(oneshot::Canceled));
}
