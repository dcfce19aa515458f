use crate::channel::Notification;
use crate::command::{failure, Command, CommandView};
use crate::definition::{ServiceDef, ServiceDefView};
use crate::orchestrator::{headings, Heading, Kind, Message, MessageView};
use vstd::prelude::*;

verus! {

/// Messages that register waiters, with the notification of each waiter.
pub struct Subscriptions {
    /// The messages to send, in this order.
    pub messages: Vec<Message>,
    /// For every message that carries a waiter, in the same order, the half
    /// that resolves when the waiter is notified or dropped.
    pub notifications: Vec<Notification>,
}

/// One heading of the given kind for every name, in order.
pub open spec fn each(kind: Kind, names: Seq<Seq<char>>) -> Seq<Heading> {
    names.map_values(|name: Seq<char>| Heading { kind, service: name })
}

/// For every name, in order, a heading of the first kind followed by one of
/// the second.
pub open spec fn each_pair(first: Kind, second: Kind, names: Seq<Seq<char>>) -> Seq<Heading> {
    Seq::new(
        2 * names.len(),
        |i: int|
            Heading { kind: if i % 2 == 0 {
                first
            } else {
                second
            }, service: names[i / 2] },
    )
}

/// Appends to `messages` a `FailOn` for every name, each with a fresh waiter
/// whose notification is appended to `notifications`.
fn subscribe_to_failure(
    names: &Vec<String>,
    messages: &mut Vec<Message>,
    notifications: &mut Vec<Notification>,
)
    ensures
        headings(final(messages)@) == headings(old(messages)@) + each(
            Kind::FailOn,
            names.deep_view(),
        ),
        final(notifications)@.len() == old(notifications)@.len() + names@.len(),
{
    let mut i: usize = 0;
    while i < names.len()
        invariant
            i <= names@.len(),
            headings(messages@) == headings(old(messages)@) + each(
                Kind::FailOn,
                names.deep_view(),
            ).take(i as int),
            notifications@.len() == old(notifications)@.len() + i,
        decreases names@.len() - i,
    {
        let ghost before = messages@;
        let (sender, receiver) = futures::channel::oneshot::channel::<()>();
        messages.push(Message::FailOn { service: names[i].clone(), sender });
        notifications.push(receiver);
        i = i + 1;
        assert(headings(messages@) =~= headings(before).push(
            each(Kind::FailOn, names.deep_view())[i - 1],
        ));
        assert(each(Kind::FailOn, names.deep_view()).take(i as int) =~= each(
            Kind::FailOn,
            names.deep_view(),
        ).take(i - 1).push(each(Kind::FailOn, names.deep_view())[i - 1]));
    }
    assert(each(Kind::FailOn, names.deep_view()).take(i as int) =~= each(
        Kind::FailOn,
        names.deep_view(),
    ));
}

impl ServiceDef {
    /// The subscriptions to the failure of every peer and every dependency:
    /// a `FailOn` for each name in `same`, then for each name in `after`.
    /// They are to be sent before any of those services is told to start, so
    /// that no failure can be missed.
    pub fn cancel_if_failed(&self) -> (subscriptions: Subscriptions)
        ensures
            headings(subscriptions.messages@) == each(Kind::FailOn, self@.same + self@.after),
            subscriptions.notifications@.len() == self@.same.len() + self@.after.len(),
    {
        let mut messages: Vec<Message> = Vec::new();
        let mut notifications: Vec<Notification> = Vec::new();
        subscribe_to_failure(&self.same, &mut messages, &mut notifications);
        subscribe_to_failure(&self.after, &mut messages, &mut notifications);
        assert(headings(messages@) =~= each(Kind::FailOn, self@.same + self@.after));
        Subscriptions { messages, notifications }
    }

    /// The requests that start the peers: a `Start` for each name in `same`.
    /// Nobody waits for the peers.
    pub fn start_wanted(&self) -> (messages: Vec<Message>)
        ensures
            headings(messages@) == each(Kind::Start, self@.same),
    {
        let mut messages: Vec<Message> = Vec::new();
        let mut i: usize = 0;
        while i < self.same.len()
            invariant
                i <= self.same@.len(),
                headings(messages@) == each(Kind::Start, self@.same).take(i as int),
            decreases self.same@.len() - i,
        {
            let ghost before = messages@;
            messages.push(Message::Start { service: self.same[i].clone() });
            i = i + 1;
            assert(headings(messages@) =~= headings(before).push(
                each(Kind::Start, self@.same)[i - 1],
            ));
            assert(each(Kind::Start, self@.same).take(i as int) =~= each(
                Kind::Start,
                self@.same,
            ).take(i - 1).push(each(Kind::Start, self@.same)[i - 1]));
        }
        assert(each(Kind::Start, self@.same).take(i as int) =~= each(Kind::Start, self@.same));
        messages
    }

    /// The requests that start the dependencies and say when they have
    /// started: for each name in `after` a `DependOn` with a fresh waiter,
    /// followed by a `Start`. The start command must wait until every one of
    /// the notifications has been delivered.
    pub fn start_required_after(&self) -> (subscriptions: Subscriptions)
        ensures
            headings(subscriptions.messages@) == each_pair(
                Kind::DependOn,
                Kind::Start,
                self@.after,
            ),
            subscriptions.notifications@.len() == self@.after.len(),
    {
        let mut messages: Vec<Message> = Vec::new();
        let mut notifications: Vec<Notification> = Vec::new();
        let ghost plan = each_pair(Kind::DependOn, Kind::Start, self@.after);
        let mut i: usize = 0;
        while i < self.after.len()
            invariant
                i <= self.after@.len(),
                plan == each_pair(Kind::DependOn, Kind::Start, self@.after),
                headings(messages@) == plan.take(2 * i),
                notifications@.len() == i,
            decreases self.after@.len() - i,
        {
            let ghost before = messages@;
            let (sender, receiver) = futures::channel::oneshot::channel::<()>();
            messages.push(Message::DependOn { service: self.after[i].clone(), sender });
            messages.push(Message::Start { service: self.after[i].clone() });
            notifications.push(receiver);
            i = i + 1;
            assert(headings(messages@) =~= headings(before).push(plan[2 * i - 2]).push(
                plan[2 * i - 1],
            ));
            assert(plan.take(2 * i) =~= plan.take(2 * i - 2).push(plan[2 * i - 2]).push(
                plan[2 * i - 1],
            ));
        }
        assert(plan.take(2 * i) =~= plan);
        Subscriptions { messages, notifications }
    }
}

/// How far the lifecycle of one service has come.
#[derive(Clone, Copy, Debug, PartialEq, Eq, Structural)]
pub enum Stage {
    /// The subscriptions are made and the dependencies asked to start; the
    /// start command waits for the dependencies.
    AwaitingDependencies,
    /// The start command is being executed.
    Starting,
    /// The start command has succeeded and the run command is being executed.
    Running,
    /// The start command has failed. Final.
    StartFailed,
    /// The run command has succeeded. Final.
    RunSucceeded,
    /// The run command has failed. Final.
    RunFailed,
    /// The service was given up because something it depends on did not
    /// start or has failed. Final.
    GivenUp,
}

/// What the driver of a lifecycle reports to it.
pub enum Event {
    /// Every notification of a dependency has resolved, with these outcomes
    /// in the order of `after`: `Ok` where the notification was delivered,
    /// `Err` where the waiter was dropped instead.
    DependenciesSettled(Vec<Result<(), futures::channel::oneshot::Canceled>>),
    /// The command that was being executed has ended with this result.
    Exited(Result<(), std::io::Error>),
    /// One of the subscriptions to failure has resolved: a peer or a
    /// dependency has failed.
    Failure,
}

/// The mathematical value of an [`Event`]: of every outcome and result only
/// whether it is a success.
pub enum EventView {
    DependenciesSettled(Seq<bool>),
    Exited(bool),
    Failure,
}

impl View for Event {
    type V = EventView;

    open spec fn view(&self) -> EventView {
        match *self {
            Event::DependenciesSettled(outcomes) => EventView::DependenciesSettled(
                outcomes@.map_values(
                    |outcome: Result<(), futures::channel::oneshot::Canceled>| outcome is Ok,
                ),
            ),
            Event::Exited(result) => EventView::Exited(result is Ok),
            Event::Failure => EventView::Failure,
        }
    }
}

/// What the driver of a lifecycle has to do next.
pub enum Directive {
    /// Execute the start command, and report how it ended or that a
    /// subscription to failure resolved, whichever comes first.
    Start(Command),
    /// Execute the run command, and report likewise.
    Run(Command),
    /// Go on with what was being done: the event changed nothing.
    Wait,
    /// Stop: the lifecycle is over.
    Stop,
}

/// The mathematical value of a [`Directive`].
pub enum DirectiveView {
    Start(CommandView),
    Run(CommandView),
    Wait,
    Stop,
}

impl View for Directive {
    type V = DirectiveView;

    open spec fn view(&self) -> DirectiveView {
        match *self {
            Directive::Start(command) => DirectiveView::Start(command@),
            Directive::Run(command) => DirectiveView::Run(command@),
            Directive::Wait => DirectiveView::Wait,
            Directive::Stop => DirectiveView::Stop,
        }
    }
}

/// The answer of a lifecycle to one event.
pub struct Step {
    /// The messages to send to the orchestrator, in this order.
    pub messages: Vec<Message>,
    /// What to do after they are sent.
    pub directive: Directive,
}

/// The mathematical value of a [`Step`].
#[verifier::ext_equal]
pub struct StepView {
    pub messages: Seq<MessageView>,
    pub directive: DirectiveView,
}

impl View for Step {
    type V = StepView;

    open spec fn view(&self) -> StepView {
        StepView {
            messages: self.messages@.map_values(|message: Message| message@),
            directive: self.directive@,
        }
    }
}

/// The dependencies of `definition` have all started: there is one outcome
/// for each of them, and every outcome is a delivered notification.
pub open spec fn satisfied(definition: ServiceDefView, outcomes: Seq<bool>) -> bool {
    &&& outcomes.len() == definition.after.len()
    &&& forall|i: int| 0 <= i < outcomes.len() ==> outcomes[i]
}

/// The report that the service has failed without its run command having
/// done so: `Finished` with a failure.
pub open spec fn gives_up(definition: ServiceDefView) -> StepView {
    StepView {
        messages: seq![MessageView::Finished { service: definition.name, ok: false }],
        directive: DirectiveView::Stop,
    }
}

/// The answer that changes nothing.
pub open spec fn ignores(stage: Stage) -> StepView {
    StepView {
        messages: Seq::empty(),
        directive: if stage.is_final() {
            DirectiveView::Stop
        } else {
            DirectiveView::Wait
        },
    }
}

impl Stage {
    /// The lifecycle is over.
    pub open spec fn is_final(self) -> bool {
        self is StartFailed || self is RunSucceeded || self is RunFailed || self is GivenUp
    }

    /// The stage after `event`, for the service with this definition.
    pub open spec fn after(self, definition: ServiceDefView, event: EventView) -> Stage {
        match (self, event) {
            (Stage::AwaitingDependencies, EventView::DependenciesSettled(outcomes)) => if satisfied(
                definition,
                outcomes,
            ) {
                Stage::Starting
            } else {
                Stage::GivenUp
            },
            (Stage::Starting, EventView::Exited(ok)) => if ok {
                Stage::Running
            } else {
                Stage::StartFailed
            },
            (Stage::Running, EventView::Exited(ok)) => if ok {
                Stage::RunSucceeded
            } else {
                Stage::RunFailed
            },
            (_, EventView::Failure) => if self.is_final() {
                self
            } else {
                Stage::GivenUp
            },
            _ => self,
        }
    }

    /// The answer to `event` in this stage, for the service with this
    /// definition.
    pub open spec fn answer(self, definition: ServiceDefView, event: EventView) -> StepView {
        match (self, event) {
            (Stage::AwaitingDependencies, EventView::DependenciesSettled(outcomes)) => if satisfied(
                definition,
                outcomes,
            ) {
                StepView {
                    messages: Seq::empty(),
                    directive: DirectiveView::Start(definition.start_command),
                }
            } else {
                gives_up(definition)
            },
            (Stage::Starting, EventView::Exited(ok)) => StepView {
                messages: seq![MessageView::Started { service: definition.name, ok }],
                directive: if ok {
                    DirectiveView::Run(definition.run_command)
                } else {
                    DirectiveView::Stop
                },
            },
            (Stage::Running, EventView::Exited(ok)) => StepView {
                messages: seq![MessageView::Finished { service: definition.name, ok }],
                directive: DirectiveView::Stop,
            },
            (_, EventView::Failure) => if self.is_final() {
                ignores(self)
            } else {
                gives_up(definition)
            },
            _ => ignores(self),
        }
    }
}

/// What a lifecycle asks of its driver at the outset.
pub struct Opening {
    /// The messages to send to the orchestrator, in this order.
    pub messages: Vec<Message>,
    /// The subscriptions to failure, one for each peer and each dependency.
    /// Once the start command may run, the first of them to resolve is to be
    /// reported as [`Event::Failure`].
    pub failures: Vec<Notification>,
    /// The notifications of the dependencies, in the order of `after`. When
    /// all have resolved, their outcomes are to be reported as
    /// [`Event::DependenciesSettled`].
    pub dependencies: Vec<Notification>,
}

/// The headings of the messages that open the lifecycle of a service: the
/// subscriptions to failure first, then the start of the peers, then for
/// each dependency the subscription to its start and its start.
pub open spec fn opening(definition: ServiceDefView) -> Seq<Heading> {
    each(Kind::FailOn, definition.same + definition.after) + each(Kind::Start, definition.same)
        + each_pair(Kind::DependOn, Kind::Start, definition.after)
}

/// The decisions of one service on its way from "told to start" to the end
/// of its run command. The driver does the waiting and reports events; the
/// lifecycle answers with the messages to send and with what to do next.
pub struct Lifecycle {
    pub definition: ServiceDef,
    pub stage: Stage,
}

/// Whether every notification was delivered.
fn all_delivered(outcomes: &Vec<Result<(), futures::channel::oneshot::Canceled>>) -> (all: bool)
    ensures
        all == (forall|i: int| 0 <= i < outcomes@.len() ==> outcomes@[i] is Ok),
{
    let mut i: usize = 0;
    while i < outcomes.len()
        invariant
            i <= outcomes@.len(),
            forall|j: int| 0 <= j < i ==> outcomes@[j] is Ok,
        decreases outcomes@.len() - i,
    {
        if outcomes[i].is_err() {
            return false;
        }
        i = i + 1;
    }
    true
}

impl Lifecycle {
    /// Begins the lifecycle of the service with this definition.
    pub fn begin(definition: ServiceDef) -> (begun: (Lifecycle, Opening))
        ensures
            begun.0.definition@ == definition@,
            begun.0.stage == Stage::AwaitingDependencies,
            headings(begun.1.messages@) == opening(definition@),
            begun.1.failures@.len() == definition@.same.len() + definition@.after.len(),
            begun.1.dependencies@.len() == definition@.after.len(),
    {
        let Subscriptions { messages, notifications: failures } = definition.cancel_if_failed();
        let mut messages = messages;
        let mut wanted = definition.start_wanted();
        let Subscriptions { messages: required, notifications: dependencies } =
            definition.start_required_after();
        let mut required = required;
        let ghost first = messages@;
        let ghost second = wanted@;
        let ghost third = required@;
        messages.append(&mut wanted);
        messages.append(&mut required);
        assert(headings(messages@) =~= headings(first) + headings(second) + headings(third));
        (
            Lifecycle { definition, stage: Stage::AwaitingDependencies },
            Opening { messages, failures, dependencies },
        )
    }

    /// Gives the service up: reports failure and ends the lifecycle.
    fn give_up(&mut self, reason: &str) -> (step: Step)
        ensures
            final(self).definition@ == old(self).definition@,
            final(self).stage == Stage::GivenUp,
            step@ == gives_up(old(self).definition@),
    {
        self.stage = Stage::GivenUp;
        let mut messages: Vec<Message> = Vec::new();
        messages.push(
            Message::Finished {
                service: self.definition.name.clone(),
                result: Err(failure(reason)),
            },
        );
        let step = Step { messages, directive: Directive::Stop };
        assert(step@ =~= gives_up(old(self).definition@));
        step
    }

    /// Answers with nothing to send and nothing new to do.
    fn ignore(&self) -> (step: Step)
        ensures
            step@ == ignores(self.stage),
    {
        let directive = match self.stage {
            Stage::AwaitingDependencies | Stage::Starting | Stage::Running => Directive::Wait,
            _ => Directive::Stop,
        };
        let step = Step { messages: Vec::new(), directive };
        assert(step@ =~= ignores(self.stage));
        step
    }

    /// Takes note of one event and answers with the messages to send and
    /// with what to do next.
    pub fn step(&mut self, event: Event) -> (step: Step)
        ensures
            final(self).definition@ == old(self).definition@,
            final(self).stage == old(self).stage.after(old(self).definition@, event@),
            step@ == old(self).stage.answer(old(self).definition@, event@),
    {
        match event {
            Event::Failure => {
                match self.stage {
                    Stage::AwaitingDependencies | Stage::Starting | Stage::Running => self.give_up(
                        "a service that this one depends on has failed",
                    ),
                    _ => self.ignore(),
                }
            },
            Event::DependenciesSettled(outcomes) => {
                match self.stage {
                    Stage::AwaitingDependencies => {
                        let ghost delivered = outcomes@.map_values(
                            |outcome: Result<(), futures::channel::oneshot::Canceled>|
                                outcome is Ok,
                        );
                        assert(event@ == EventView::DependenciesSettled(delivered));
                        assert((forall|i: int| 0 <= i < outcomes@.len() ==> outcomes@[i] is Ok)
                            <==> (forall|i: int| 0 <= i < delivered.len() ==> delivered[i])) by {
                            if forall|i: int| 0 <= i < delivered.len() ==> delivered[i] {
                                assert forall|i: int| 0 <= i < outcomes@.len()
                                    implies outcomes@[i] is Ok by {
                                    assert(delivered[i]);
                                }
                            }
                        }
                        if outcomes.len() == self.definition.after.len() && all_delivered(
                            &outcomes,
                        ) {
                            self.stage = Stage::Starting;
                            let step = Step {
                                messages: Vec::new(),
                                directive: Directive::Start(self.definition.start_command.clone()),
                            };
                            assert(step@ =~= old(self).stage.answer(old(self).definition@, event@));
                            step
                        } else {
                            self.give_up("a dependency has not started")
                        }
                    },
                    _ => self.ignore(),
                }
            },
            Event::Exited(result) => {
                match self.stage {
                    Stage::Starting => {
                        let mut messages: Vec<Message> = Vec::new();
                        let directive = if result.is_ok() {
                            self.stage = Stage::Running;
                            Directive::Run(self.definition.run_command.clone())
                        } else {
                            self.stage = Stage::StartFailed;
                            Directive::Stop
                        };
                        messages.push(
                            Message::Started { service: self.definition.name.clone(), result },
                        );
                        let step = Step { messages, directive };
                        assert(step@ =~= old(self).stage.answer(old(self).definition@, event@));
                        step
                    },
                    Stage::Running => {
                        let mut messages: Vec<Message> = Vec::new();
                        if result.is_ok() {
                            self.stage = Stage::RunSucceeded;
                        } else {
                            self.stage = Stage::RunFailed;
                        }
                        messages.push(
                            Message::Finished { service: self.definition.name.clone(), result },
                        );
                        let step = Step { messages, directive: Directive::Stop };
                        assert(step@ =~= old(self).stage.answer(old(self).definition@, event@));
                        step
                    },
                    _ => self.ignore(),
                }
            },
        }
    }
}

} // verus!
