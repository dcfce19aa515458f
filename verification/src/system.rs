//! The orchestrator and the lifecycles put together.
//!
//! The orchestrator and a lifecycle each decide what follows from one message
//! or one event. This module describes how the decisions meet: messages
//! travel from the lifecycles and from outside to the orchestrator, the
//! orchestrator hands waiters back to be notified, and the drivers report to
//! the lifecycles what they have seen. It then shows what holds in every
//! state that such a system can reach.
//!
//! Three things are taken for granted of what lies outside the library. A
//! waiter that a channel was made for is no waiter that existed before. The
//! notification of a waiter resolves as delivered only if the orchestrator
//! has handed that waiter back to be notified. And only lifecycles report
//! how commands have ended; from elsewhere come requests to start and
//! registrations. Nothing is taken for granted of the order in which
//! messages arrive or events are reported.

use crate::channel::Waiter;
use crate::command::CommandView;
use crate::definition::{names_distinct, ServiceDefView};
use crate::laws::Records;
use crate::lifecycle::{opening, satisfied, EventView, Stage};
use crate::orchestrator::{
    by_name, definitions_of, delivered, lemma_by_name_index, MessageView, Phase, ServiceStateView,
};
use vstd::prelude::*;

verus! {

/// One lifecycle as the whole sees it: its stage, the messages it has
/// answered with and that are not sent yet, the waiters whose notifications
/// it holds, and what has happened to its start command.
pub struct Task {
    pub stage: Stage,
    /// The messages still to be sent to the orchestrator, in order.
    pub outbox: Seq<MessageView>,
    /// The waiters registered for the start of the dependencies, in the
    /// order of `after`.
    pub dependencies: Seq<Waiter>,
    /// The waiters registered for the failure of the peers and dependencies.
    pub failures: Seq<Waiter>,
    /// How often the start command was directed to be executed.
    pub starts: nat,
    /// How often the run command was directed to be executed.
    pub runs: nat,
    /// The start command was reported to have succeeded.
    pub started: bool,
}

/// The orchestrator together with what surrounds it: the messages that are
/// on their way to it, the lifecycles that it has handed out, and the
/// one-shot channels.
pub struct System {
    /// The orchestrator's records.
    pub records: Records,
    /// The messages in the inbound queue.
    pub queue: Seq<MessageView>,
    /// The lifecycles, each under the name of its service.
    pub tasks: Map<Seq<char>, Task>,
    /// The waiters of all one-shot channels that were ever made.
    pub made: Set<Waiter>,
    /// The waiters that the orchestrator has handed back to be notified.
    /// Only the notification of such a waiter resolves as delivered.
    pub notified: Set<Waiter>,
}

/// What can happen in a system.
pub enum Action {
    /// Somebody outside asks for a service to be started, or registers a
    /// waiter of a channel made for the purpose.
    Request { message: MessageView },
    /// The orchestrator handles the message at `position` of the queue. If
    /// that sets off a lifecycle, the lifecycle makes the channels of which
    /// these are the waiters.
    Handle { position: int, failures: Seq<Waiter>, dependencies: Seq<Waiter> },
    /// The driver of a lifecycle sends the next message of its outbox.
    Send { service: Seq<char> },
    /// The driver of a lifecycle reports how the notifications of the
    /// dependencies have resolved.
    Settle { service: Seq<char>, outcomes: Seq<bool> },
    /// The driver of a lifecycle reports that a command has ended.
    Exit { service: Seq<char>, ok: bool },
    /// The driver of a lifecycle reports that a subscription to failure has
    /// resolved.
    Fail { service: Seq<char> },
}

/// The messages with which the lifecycle of `definition` opens, carrying
/// the given waiters: what [`opening`] describes by kind and service.
pub open spec fn opening_messages(
    definition: ServiceDefView,
    failures: Seq<Waiter>,
    dependencies: Seq<Waiter>,
) -> Seq<MessageView> {
    Seq::new(
        (definition.same + definition.after).len(),
        |k: int|
            MessageView::FailOn {
                service: (definition.same + definition.after)[k],
                sender: failures[k],
            },
    ) + definition.same.map_values(|name: Seq<char>| MessageView::Start { service: name })
        + Seq::new(
        2 * definition.after.len(),
        |i: int|
            if i % 2 == 0 {
                MessageView::DependOn {
                    service: definition.after[i / 2],
                    sender: dependencies[i / 2],
                }
            } else {
                MessageView::Start { service: definition.after[i / 2] }
            },
    )
}

/// The opening messages are those that [`opening`] describes.
pub proof fn lemma_opening_messages_as_described(
    definition: ServiceDefView,
    failures: Seq<Waiter>,
    dependencies: Seq<Waiter>,
)
    ensures
        opening_messages(definition, failures, dependencies).map_values(
            |message: MessageView| message.heading(),
        ) == opening(definition),
{
    assert(opening_messages(definition, failures, dependencies).map_values(
        |message: MessageView| message.heading(),
    ) =~= opening(definition));
}

/// The system before anything has happened.
pub open spec fn initial(records: Records) -> System {
    System {
        records,
        queue: Seq::empty(),
        tasks: Map::empty(),
        made: Set::empty(),
        notified: Set::empty(),
    }
}

/// A lifecycle after its driver has reported `event` to it: it has moved to
/// the next stage and put its answer into the outbox.
pub open spec fn reported(task: Task, definition: ServiceDefView, event: EventView) -> Task {
    let answer = task.stage.answer(definition, event);
    Task {
        stage: task.stage.after(definition, event),
        outbox: task.outbox + answer.messages,
        starts: if answer.directive is Start {
            task.starts + 1
        } else {
            task.starts
        },
        runs: if answer.directive is Run {
            task.runs + 1
        } else {
            task.runs
        },
        started: task.started || (task.stage is Starting && event == EventView::Exited(true)),
        ..task
    }
}

/// The system after `event` was reported to the lifecycle of `service`.
pub open spec fn with_report(before: System, service: Seq<char>, event: EventView) -> System {
    System {
        tasks: before.tasks.insert(
            service,
            reported(before.tasks[service], before.records[service].definition, event),
        ),
        ..before
    }
}

/// `action` can happen in the system.
pub open spec fn enabled(before: System, action: Action) -> bool {
    match action {
        Action::Request { message } => {
            &&& message is Start || message is DependOn || message is FailOn
            &&& forall|i: int|
                0 <= i < message.registers().len() ==> !before.made.contains(
                    #[trigger] message.registers()[i],
                )
        },
        Action::Handle { position, failures, dependencies } => {
            &&& 0 <= position < before.queue.len()
            &&& before.records.dom().contains(before.queue[position].service())
            &&& {
                let message = before.queue[position];
                let effects = before.records[message.service()].effects(message);
                effects.spawn matches Some(definition) ==> {
                    &&& failures.len() == definition.same.len() + definition.after.len()
                    &&& dependencies.len() == definition.after.len()
                    &&& (failures + dependencies).no_duplicates()
                    &&& forall|i: int|
                        0 <= i < (failures + dependencies).len() ==> !before.made.contains(
                            #[trigger] (failures + dependencies)[i],
                        )
                }
            }
        },
        Action::Send { service } => {
            &&& before.tasks.dom().contains(service)
            &&& before.tasks[service].outbox.len() > 0
        },
        Action::Settle { service, outcomes } => {
            &&& before.tasks.dom().contains(service)
            &&& forall|k: int|
                0 <= k < outcomes.len() && k < before.tasks[service].dependencies.len()
                    && #[trigger] outcomes[k] ==> before.notified.contains(
                    before.tasks[service].dependencies[k],
                )
        },
        Action::Exit { service, ok } => before.tasks.dom().contains(service),
        Action::Fail { service } => before.tasks.dom().contains(service),
    }
}

/// The system after `action` has happened.
pub open spec fn next(before: System, action: Action) -> System {
    match action {
        Action::Request { message } => System {
            queue: before.queue.push(message),
            made: before.made.union(message.registers().to_set()),
            ..before
        },
        Action::Handle { position, failures, dependencies } => {
            let message = before.queue[position];
            let service = message.service();
            let effects = before.records[service].effects(message);
            let handled = System {
                records: delivered(before.records, message),
                queue: before.queue.remove(position),
                notified: before.notified.union(effects.fire.to_set()),
                ..before
            };
            match effects.spawn {
                None => handled,
                Some(definition) => System {
                    tasks: before.tasks.insert(
                        service,
                        Task {
                            stage: Stage::AwaitingDependencies,
                            outbox: opening_messages(definition, failures, dependencies),
                            dependencies,
                            failures,
                            starts: 0,
                            runs: 0,
                            started: false,
                        },
                    ),
                    made: before.made.union((failures + dependencies).to_set()),
                    ..handled
                },
            }
        },
        Action::Send { service } => System {
            queue: before.queue.push(before.tasks[service].outbox[0]),
            tasks: before.tasks.insert(
                service,
                Task { outbox: before.tasks[service].outbox.skip(1), ..before.tasks[service] },
            ),
            ..before
        },
        Action::Settle { service, outcomes } => with_report(
            before,
            service,
            EventView::DependenciesSettled(outcomes),
        ),
        Action::Exit { service, ok } => with_report(before, service, EventView::Exited(ok)),
        Action::Fail { service } => with_report(before, service, EventView::Failure),
    }
}

/// `action` leads from `before` to `after`.
pub open spec fn step(before: System, action: Action, after: System) -> bool {
    enabled(before, action) && after == next(before, action)
}

/// `states` is a run of the system from `records` on: it begins with the
/// initial system, and every state but the first comes from the one before
/// it by the action at its place.
pub open spec fn is_run(records: Records, actions: Seq<Action>, states: Seq<System>) -> bool {
    &&& states.len() == actions.len() + 1
    &&& states[0] == initial(records)
    &&& forall|i: int|
        0 <= i < actions.len() ==> #[trigger] step(states[i], actions[i], states[i + 1])
}

/// The records that an orchestrator begins with: every record is under the
/// name of its own service and nothing has happened to it yet.
pub open spec fn untouched(records: Records) -> bool {
    forall|name: Seq<char>| #[trigger]
        records.dom().contains(name) ==> records[name] == ServiceStateView::fresh(
            records[name].definition,
        ) && records[name].definition.name == name
}

/// The records of a new orchestrator are untouched: a run can begin with
/// what [`crate::orchestrator::Orchestrator::new`] makes of definitions
/// whose names are distinct.
pub proof fn lemma_new_records_are_untouched(definitions: Seq<ServiceDefView>)
    requires
        names_distinct(definitions),
    ensures
        untouched(
            by_name(
                definitions.map_values(
                    |definition: ServiceDefView| ServiceStateView::fresh(definition),
                ),
            ),
        ),
{
    let fresh = definitions.map_values(
        |definition: ServiceDefView| ServiceStateView::fresh(definition),
    );
    let records = by_name(fresh);
    assert(definitions_of(fresh) =~= definitions);
    assert forall|name: Seq<char>| #[trigger] records.dom().contains(name) implies records[name]
        == ServiceStateView::fresh(records[name].definition) && records[name].definition.name
        == name by {
        let i = choose|i: int| 0 <= i < definitions.len() && (#[trigger] definitions[i]).name == name;
        lemma_by_name_index(fresh, i);
    }
}

/// `message` is on its way to the orchestrator: it is in the queue, or in
/// the outbox of a lifecycle.
pub open spec fn carried(system: System, message: MessageView) -> bool {
    ||| system.queue.contains(message)
    ||| exists|name: Seq<char>|
        system.tasks.dom().contains(name) && #[trigger] system.tasks[name].outbox.contains(message)
}

/// The record of `service` keeps `waiter` for the start of the service.
pub open spec fn kept_for_start(system: System, service: Seq<char>, waiter: Waiter) -> bool {
    system.records.dom().contains(service) && system.records[service].once_started.contains(waiter)
}

/// The record of `service` keeps `waiter` for the failure of the service.
pub open spec fn kept_for_failure(system: System, service: Seq<char>, waiter: Waiter) -> bool {
    system.records.dom().contains(service) && system.records[service].once_failed.contains(waiter)
}

/// Wherever `waiter` is, it is there for the start of `service` and for
/// nothing else.
pub open spec fn reserved(system: System, waiter: Waiter, service: Seq<char>) -> bool {
    &&& forall|other: Seq<char>| #[trigger] kept_for_start(system, other, waiter)
        ==> other == service
    &&& forall|other: Seq<char>| !#[trigger] kept_for_failure(system, other, waiter)
    &&& forall|other: Seq<char>| #[trigger]
        carried(system, MessageView::DependOn { service: other, sender: waiter }) ==> other
            == service
    &&& forall|other: Seq<char>|
        !#[trigger] carried(system, MessageView::FailOn { service: other, sender: waiter })
}

/// The service called `name` has its start command behind it, and the
/// command succeeded.
pub open spec fn has_started(system: System, name: Seq<char>) -> bool {
    system.tasks.dom().contains(name) && system.tasks[name].started
}

/// The failure of the start command of the service called `name` is on its
/// way to the orchestrator or has arrived there.
pub open spec fn start_failure_known(system: System, name: Seq<char>) -> bool {
    ||| carried(system, MessageView::Started { service: name, ok: false })
    ||| system.records.dom().contains(name) && system.records[name].phase is StartFailed
}

/// The success of the run command of the service called `name` is on its
/// way to the orchestrator or has arrived there.
pub open spec fn success_known(system: System, name: Seq<char>) -> bool {
    ||| carried(system, MessageView::Finished { service: name, ok: true })
    ||| system.records.dom().contains(name) && system.records[name].phase is RunSucceeded
}

/// The start command of the service called `name` has failed.
pub open spec fn has_failed_to_start(system: System, name: Seq<char>) -> bool {
    system.tasks.dom().contains(name) && system.tasks[name].stage is StartFailed
}

/// The run command of the service called `name` has succeeded.
pub open spec fn has_succeeded(system: System, name: Seq<char>) -> bool {
    system.tasks.dom().contains(name) && system.tasks[name].stage is RunSucceeded
}

/// What holds of the lifecycle of the service called `name`.
pub open spec fn task_in_order(system: System, name: Seq<char>) -> bool {
    let task = system.tasks[name];
    let definition = system.records[name].definition;
    &&& system.records.dom().contains(name)
    &&& system.records[name].phase.started()
    &&& task.dependencies.len() == definition.after.len()
    &&& forall|k: int|
        0 <= k < task.dependencies.len() ==> {
            &&& system.made.contains(#[trigger] task.dependencies[k])
            &&& reserved(system, task.dependencies[k], definition.after[k])
            &&& system.notified.contains(task.dependencies[k]) ==> has_started(
                system,
                definition.after[k],
            )
        }
    &&& task.starts > 0 ==> forall|k: int|
        0 <= k < definition.after.len() ==> has_started(system, #[trigger] definition.after[k])
    &&& task.started ==> !(task.stage is AwaitingDependencies || task.stage is Starting
        || task.stage is StartFailed)
    &&& task.starts <= 1
    &&& task.runs <= 1
    &&& task.stage is AwaitingDependencies ==> task.starts == 0
    &&& task.stage is AwaitingDependencies || task.stage is Starting ==> task.runs == 0
}

/// What holds of every system that a run can reach.
pub open spec fn in_order(system: System) -> bool {
    &&& forall|name: Seq<char>| #[trigger]
        system.tasks.dom().contains(name) ==> task_in_order(system, name)
    &&& forall|name: Seq<char>| #[trigger]
        system.records.dom().contains(name) ==> system.records[name].definition.name == name
    &&& forall|name: Seq<char>|
        system.records.dom().contains(name)
            && (#[trigger] system.records[name]).phase.start_succeeded()
            ==> has_started(system, name)
    &&& forall|name: Seq<char>| #[trigger]
        carried(system, MessageView::Started { service: name, ok: true }) ==> has_started(
            system,
            name,
        )
    &&& forall|message: MessageView, i: int|
        #![trigger carried(system, message), message.registers()[i]]
        carried(system, message) && 0 <= i < message.registers().len() ==> system.made.contains(
            message.registers()[i],
        )
    &&& forall|name: Seq<char>, waiter: Waiter| #[trigger]
        kept_for_start(system, name, waiter) ==> system.made.contains(waiter)
    &&& forall|name: Seq<char>, waiter: Waiter| #[trigger]
        kept_for_failure(system, name, waiter) ==> system.made.contains(waiter)
    &&& forall|waiter: Waiter| #[trigger]
        system.notified.contains(waiter) ==> system.made.contains(waiter)
    &&& forall|name: Seq<char>| #[trigger]
        system.records.dom().contains(name) ==> system.records[name].wf()
    &&& forall|name: Seq<char>| #[trigger] start_failure_known(system, name)
        ==> has_failed_to_start(system, name)
    &&& forall|name: Seq<char>| #[trigger] success_known(system, name)
        ==> has_succeeded(system, name)
}

/// The initial system is in order.
pub proof fn lemma_initial_in_order(records: Records)
    requires
        untouched(records),
    ensures
        in_order(initial(records)),
{
    let system = initial(records);
    assert forall|name: Seq<char>|
        system.records.dom().contains(name)
            && (#[trigger] system.records[name]).phase.start_succeeded() implies has_started(
        system,
        name,
    ) by {
        assert(records.dom().contains(name));
    }
    assert forall|name: Seq<char>, waiter: Waiter| #[trigger]
        kept_for_start(system, name, waiter) implies system.made.contains(waiter) by {
        assert(records.dom().contains(name));
    }
    assert forall|name: Seq<char>, waiter: Waiter| #[trigger]
        kept_for_failure(system, name, waiter) implies system.made.contains(waiter) by {
        assert(records.dom().contains(name));
    }
    assert forall|name: Seq<char>| #[trigger]
        system.records.dom().contains(name) implies system.records[name].wf() by {
        assert(records.dom().contains(name));
    }
    assert forall|name: Seq<char>| #[trigger]
        start_failure_known(system, name) implies has_failed_to_start(system, name) by {
        if system.records.dom().contains(name) {
            assert(records.dom().contains(name));
        }
    }
    assert forall|name: Seq<char>| #[trigger] success_known(system, name) implies has_succeeded(
        system,
        name,
    ) by {
        if system.records.dom().contains(name) {
            assert(records.dom().contains(name));
        }
    }
}

/// A message found in the concatenation of two sequences is found in one of
/// them.
proof fn lemma_contains_in_either(
    first: Seq<MessageView>,
    second: Seq<MessageView>,
    message: MessageView,
)
    requires
        (first + second).contains(message),
    ensures
        first.contains(message) || second.contains(message),
{
    let i = choose|i: int| 0 <= i < (first + second).len() && (first + second)[i] == message;
    if i < first.len() {
        assert(first[i] == message);
    } else {
        assert(second[i - first.len()] == message);
    }
}

/// After a report to a lifecycle, the messages on their way are those that
/// were on their way before and those of the answer.
proof fn lemma_carried_after_report(
    before: System,
    service: Seq<char>,
    event: EventView,
    message: MessageView,
)
    requires
        before.tasks.dom().contains(service),
        carried(with_report(before, service, event), message),
    ensures
        carried(before, message) || before.tasks[service].stage.answer(
            before.records[service].definition,
            event,
        ).messages.contains(message),
{
    let after = with_report(before, service, event);
    if !after.queue.contains(message) {
        let name = choose|name: Seq<char>|
            after.tasks.dom().contains(name)
                && #[trigger] after.tasks[name].outbox.contains(message);
        if name == service {
            lemma_contains_in_either(
                before.tasks[service].outbox,
                before.tasks[service].stage.answer(
                    before.records[service].definition,
                    event,
                ).messages,
                message,
            );
            if before.tasks[service].outbox.contains(message) {
                assert(before.tasks.dom().contains(service)
                    && before.tasks[service].outbox.contains(message));
            }
        } else {
            assert(before.tasks.dom().contains(name)
                && before.tasks[name].outbox.contains(message));
        }
    }
}

/// The report of the outcomes is truthful: an outcome is a delivered
/// notification only where the waiter was handed back to be notified.
pub open spec fn truthful(system: System, service: Seq<char>, event: EventView) -> bool {
    event matches EventView::DependenciesSettled(outcomes) ==> forall|k: int|
        0 <= k < outcomes.len() && k < system.tasks[service].dependencies.len()
            && #[trigger] outcomes[k] ==> system.notified.contains(
            system.tasks[service].dependencies[k],
        )
}

/// A truthful report to a lifecycle keeps the system in order.
proof fn lemma_report_keeps_order(before: System, service: Seq<char>, event: EventView)
    requires
        in_order(before),
        before.tasks.dom().contains(service),
        truthful(before, service, event),
    ensures
        in_order(with_report(before, service, event)),
{
    let after = with_report(before, service, event);
    let definition = before.records[service].definition;
    let answer = before.tasks[service].stage.answer(definition, event);
    assert(task_in_order(before, service));
    assert(definition.name == service);
    assert forall|name: Seq<char>| has_started(before, name) implies has_started(after, name) by {}
    assert forall|name: Seq<char>| has_failed_to_start(before, name) implies has_failed_to_start(
        after,
        name,
    ) by {}
    assert forall|name: Seq<char>| has_succeeded(before, name)
        implies has_succeeded(after, name) by {}
    assert forall|name: Seq<char>| #[trigger]
        after.records.dom().contains(name) implies after.records[name].wf() by {
        assert(before.records.dom().contains(name));
    }
    assert forall|name: Seq<char>| #[trigger]
        start_failure_known(after, name) implies has_failed_to_start(after, name) by {
        let failure = MessageView::Started { service: name, ok: false };
        if carried(after, failure) && !carried(before, failure) {
            lemma_carried_after_report(before, service, event, failure);
            assert(answer.messages.contains(failure));
            assert(answer.messages[0] == failure);
        } else {
            assert(start_failure_known(before, name));
        }
    }
    assert forall|name: Seq<char>| #[trigger] success_known(after, name) implies has_succeeded(
        after,
        name,
    ) by {
        let success = MessageView::Finished { service: name, ok: true };
        if carried(after, success) && !carried(before, success) {
            lemma_carried_after_report(before, service, event, success);
            assert(answer.messages.contains(success));
            assert(answer.messages[0] == success);
        } else {
            assert(success_known(before, name));
        }
    }
    assert forall|message: MessageView| #[trigger] carried(after, message) implies carried(
        before,
        message,
    ) || answer.messages.contains(message) by {
        lemma_carried_after_report(before, service, event, message);
    }
    assert forall|message: MessageView| answer.messages.contains(message)
        implies (message is Started
        || message is Finished) && message.service() == service by {}
    assert forall|name: Seq<char>, waiter: Waiter|
        reserved(before, waiter, name) implies reserved(after, waiter, name) by {
        assert forall|other: Seq<char>| #[trigger]
            kept_for_start(after, other, waiter) implies other == name by {
            assert(kept_for_start(before, other, waiter));
        }
        assert forall|other: Seq<char>| !#[trigger] kept_for_failure(after, other, waiter) by {
            assert(!kept_for_failure(before, other, waiter));
        }
    }
    assert forall|name: Seq<char>| #[trigger] after.tasks.dom().contains(name)
        implies task_in_order(
        after,
        name,
    ) by {
        assert(before.tasks.dom().contains(name));
        assert(task_in_order(before, name));
        let task = after.tasks[name];
        let old_task = before.tasks[name];
        assert(task.dependencies == old_task.dependencies);
        assert forall|k: int| 0 <= k < task.dependencies.len() implies {
            &&& after.made.contains(#[trigger] task.dependencies[k])
            &&& reserved(after, task.dependencies[k], after.records[name].definition.after[k])
            &&& after.notified.contains(task.dependencies[k]) ==> has_started(
                after,
                after.records[name].definition.after[k],
            )
        } by {
            assert(reserved(
                before,
                old_task.dependencies[k],
                before.records[name].definition.after[k],
            ));
        }
        if name == service && task.starts > 0 && old_task.starts == 0 {
            let outcomes = event->DependenciesSettled_0;
            assert forall|k: int| 0 <= k < definition.after.len() implies has_started(
                after,
                #[trigger] definition.after[k],
            ) by {
                assert(outcomes[k]);
                assert(before.notified.contains(old_task.dependencies[k]));
                assert(has_started(before, definition.after[k]));
            }
        }
    }
    assert forall|name: Seq<char>| #[trigger]
        carried(after, MessageView::Started { service: name, ok: true }) implies has_started(
        after,
        name,
    ) by {
        let message = MessageView::Started { service: name, ok: true };
        if carried(before, message) {
            assert(has_started(before, name));
        } else {
            assert(answer.messages.contains(message));
        }
    }
    assert forall|message: MessageView, i: int|
        #![trigger carried(after, message), message.registers()[i]]
        carried(after, message) && 0 <= i < message.registers().len() implies after.made.contains(
        message.registers()[i],
    ) by {
        if carried(before, message) {
            assert(before.made.contains(message.registers()[i]));
        }
    }
    assert forall|name: Seq<char>, waiter: Waiter| #[trigger]
        kept_for_start(after, name, waiter) implies after.made.contains(waiter) by {
        assert(kept_for_start(before, name, waiter));
    }
    assert forall|name: Seq<char>, waiter: Waiter| #[trigger]
        kept_for_failure(after, name, waiter) implies after.made.contains(waiter) by {
        assert(kept_for_failure(before, name, waiter));
    }
}

/// Sending the next message of an outbox keeps the system in order.
proof fn lemma_send_keeps_order(before: System, service: Seq<char>, after: System)
    requires
        in_order(before),
        step(before, Action::Send { service }, after),
    ensures
        in_order(after),
{
    let outbox = before.tasks[service].outbox;
    assert forall|message: MessageView| #[trigger] carried(after, message) implies carried(
        before,
        message,
    ) by {
        if after.queue.contains(message) {
            let i = choose|i: int| 0 <= i < after.queue.len() && after.queue[i] == message;
            if i < before.queue.len() {
                assert(before.queue[i] == message);
            } else {
                assert(outbox[0] == message);
                assert(before.tasks.dom().contains(service)
                    && before.tasks[service].outbox.contains(
                    message,
                ));
            }
        } else {
            let name = choose|name: Seq<char>|
                after.tasks.dom().contains(name) && #[trigger] after.tasks[name].outbox.contains(
                    message,
                );
            if name == service {
                let i = choose|i: int| 0 <= i < outbox.skip(1).len()
                    && outbox.skip(1)[i] == message;
                assert(outbox[i + 1] == message);
                assert(before.tasks.dom().contains(service)
                    && before.tasks[service].outbox.contains(
                    message,
                ));
            } else {
                assert(before.tasks.dom().contains(name) && before.tasks[name].outbox.contains(
                    message,
                ));
            }
        }
    }
    assert forall|name: Seq<char>| has_started(before, name) implies has_started(after, name) by {}
    assert forall|name: Seq<char>| has_failed_to_start(before, name) implies has_failed_to_start(
        after,
        name,
    ) by {}
    assert forall|name: Seq<char>| has_succeeded(before, name)
        implies has_succeeded(after, name) by {}
    assert forall|name: Seq<char>| #[trigger]
        after.records.dom().contains(name) implies after.records[name].wf() by {
        assert(before.records.dom().contains(name));
    }
    assert forall|name: Seq<char>| #[trigger]
        start_failure_known(after, name) implies has_failed_to_start(after, name) by {
        assert(start_failure_known(before, name));
    }
    assert forall|name: Seq<char>| #[trigger] success_known(after, name) implies has_succeeded(
        after,
        name,
    ) by {
        assert(success_known(before, name));
    }
    assert forall|name: Seq<char>, waiter: Waiter|
        reserved(before, waiter, name) implies reserved(after, waiter, name) by {
        assert forall|other: Seq<char>| #[trigger]
            kept_for_start(after, other, waiter) implies other == name by {
            assert(kept_for_start(before, other, waiter));
        }
        assert forall|other: Seq<char>| !#[trigger] kept_for_failure(after, other, waiter) by {
            assert(!kept_for_failure(before, other, waiter));
        }
    }
    assert forall|name: Seq<char>| #[trigger] after.tasks.dom().contains(name)
        implies task_in_order(
        after,
        name,
    ) by {
        assert(before.tasks.dom().contains(name));
        assert(task_in_order(before, name));
        let task = after.tasks[name];
        let old_task = before.tasks[name];
        assert(task.dependencies == old_task.dependencies);
        assert forall|k: int| 0 <= k < task.dependencies.len() implies {
            &&& after.made.contains(#[trigger] task.dependencies[k])
            &&& reserved(after, task.dependencies[k], after.records[name].definition.after[k])
            &&& after.notified.contains(task.dependencies[k]) ==> has_started(
                after,
                after.records[name].definition.after[k],
            )
        } by {
            assert(reserved(
                before,
                old_task.dependencies[k],
                before.records[name].definition.after[k],
            ));
        }
    }
    assert forall|name: Seq<char>| #[trigger]
        carried(after, MessageView::Started { service: name, ok: true }) implies has_started(
        after,
        name,
    ) by {
        assert(has_started(before, name));
    }
    assert forall|name: Seq<char>, waiter: Waiter| #[trigger]
        kept_for_start(after, name, waiter) implies after.made.contains(waiter) by {
        assert(kept_for_start(before, name, waiter));
    }
    assert forall|name: Seq<char>, waiter: Waiter| #[trigger]
        kept_for_failure(after, name, waiter) implies after.made.contains(waiter) by {
        assert(kept_for_failure(before, name, waiter));
    }
}

/// A request from outside keeps the system in order.
proof fn lemma_request_keeps_order(before: System, message: MessageView, after: System)
    requires
        in_order(before),
        step(before, Action::Request { message }, after),
    ensures
        in_order(after),
{
    assert forall|other: MessageView| #[trigger] carried(after, other)
        implies carried(before, other)
        || other == message by {
        if after.queue.contains(other) {
            let i = choose|i: int| 0 <= i < after.queue.len() && after.queue[i] == other;
            if i < before.queue.len() {
                assert(before.queue[i] == other);
            }
        } else {
            let name = choose|name: Seq<char>|
                after.tasks.dom().contains(name)
                    && #[trigger] after.tasks[name].outbox.contains(other);
            assert(before.tasks.dom().contains(name) && before.tasks[name].outbox.contains(other));
        }
    }
    assert forall|i: int| 0 <= i < message.registers().len() implies after.made.contains(
        #[trigger] message.registers()[i],
    ) by {
        assert(message.registers().to_set().contains(message.registers()[i]));
    }
    assert forall|name: Seq<char>| has_started(before, name) implies has_started(after, name) by {}
    assert forall|name: Seq<char>| has_failed_to_start(before, name) implies has_failed_to_start(
        after,
        name,
    ) by {}
    assert forall|name: Seq<char>| has_succeeded(before, name)
        implies has_succeeded(after, name) by {}
    assert forall|name: Seq<char>| #[trigger]
        after.records.dom().contains(name) implies after.records[name].wf() by {
        assert(before.records.dom().contains(name));
    }
    assert forall|name: Seq<char>| #[trigger]
        start_failure_known(after, name) implies has_failed_to_start(after, name) by {
        assert(start_failure_known(before, name));
    }
    assert forall|name: Seq<char>| #[trigger] success_known(after, name) implies has_succeeded(
        after,
        name,
    ) by {
        assert(success_known(before, name));
    }
    assert forall|name: Seq<char>, waiter: Waiter|
        reserved(before, waiter, name) && before.made.contains(waiter) implies reserved(
        after,
        waiter,
        name,
    ) by {
        assert forall|other: Seq<char>| #[trigger]
            kept_for_start(after, other, waiter) implies other == name by {
            assert(kept_for_start(before, other, waiter));
        }
        assert forall|other: Seq<char>| !#[trigger] kept_for_failure(after, other, waiter) by {
            assert(!kept_for_failure(before, other, waiter));
        }
        assert forall|other: Seq<char>| #[trigger]
            carried(after, MessageView::DependOn { service: other, sender: waiter }) implies other
            == name by {
            let registration = MessageView::DependOn { service: other, sender: waiter };
            if registration == message {
                assert(message.registers()[0] == waiter);
            }
        }
        assert forall|other: Seq<char>|
            !#[trigger] carried(after, MessageView::FailOn { service: other, sender: waiter }) by {
            let registration = MessageView::FailOn { service: other, sender: waiter };
            if registration == message {
                assert(message.registers()[0] == waiter);
            }
        }
    }
    assert forall|name: Seq<char>| #[trigger] after.tasks.dom().contains(name)
        implies task_in_order(
        after,
        name,
    ) by {
        assert(before.tasks.dom().contains(name));
        assert(task_in_order(before, name));
        let task = after.tasks[name];
        assert forall|k: int| 0 <= k < task.dependencies.len() implies {
            &&& after.made.contains(#[trigger] task.dependencies[k])
            &&& reserved(after, task.dependencies[k], after.records[name].definition.after[k])
            &&& after.notified.contains(task.dependencies[k]) ==> has_started(
                after,
                after.records[name].definition.after[k],
            )
        } by {
            assert(reserved(before, task.dependencies[k],
                before.records[name].definition.after[k]));
        }
    }
    assert forall|name: Seq<char>| #[trigger]
        carried(after, MessageView::Started { service: name, ok: true }) implies has_started(
        after,
        name,
    ) by {
        assert(has_started(before, name));
    }
    assert forall|other: MessageView, i: int|
        #![trigger carried(after, other), other.registers()[i]]
        carried(after, other) && 0 <= i < other.registers().len() implies after.made.contains(
        other.registers()[i],
    ) by {
        if carried(before, other) {
            assert(before.made.contains(other.registers()[i]));
        }
    }
    assert forall|name: Seq<char>, waiter: Waiter| #[trigger]
        kept_for_start(after, name, waiter) implies after.made.contains(waiter) by {
        assert(kept_for_start(before, name, waiter));
    }
    assert forall|name: Seq<char>, waiter: Waiter| #[trigger]
        kept_for_failure(after, name, waiter) implies after.made.contains(waiter) by {
        assert(kept_for_failure(before, name, waiter));
    }
}

/// What the opening messages are: registrations of the lifecycle's own
/// waiters, each dependency waiter for the start of its dependency, and
/// requests to start.
proof fn lemma_opening_message_shape(
    definition: ServiceDefView,
    failures: Seq<Waiter>,
    dependencies: Seq<Waiter>,
    message: MessageView,
)
    requires
        opening_messages(definition, failures, dependencies).contains(message),
        failures.len() == definition.same.len() + definition.after.len(),
        dependencies.len() == definition.after.len(),
    ensures
        match message {
            MessageView::FailOn { service, sender } => exists|j: int|
                0 <= j < failures.len() && #[trigger] failures[j] == sender,
            MessageView::DependOn { service, sender } => exists|j: int|
                0 <= j < dependencies.len() && #[trigger] dependencies[j] == sender
                    && definition.after[j] == service,
            MessageView::Start { .. } => true,
            _ => false,
        },
{
    let messages = opening_messages(definition, failures, dependencies);
    let i = choose|i: int| 0 <= i < messages.len() && messages[i] == message;
    let subscriptions = (definition.same + definition.after).len();
    let peers = definition.same.len();
    if i < subscriptions {
        assert(failures[i] == message->FailOn_sender);
    } else if i < subscriptions + peers {
    } else {
        let offset = i - subscriptions - peers;
        if offset % 2 == 0 {
            assert(dependencies[offset / 2] == message->DependOn_sender);
        }
    }
}

/// Handling a message keeps the system in order.
proof fn lemma_handle_keeps_order(
    before: System,
    position: int,
    failures: Seq<Waiter>,
    dependencies: Seq<Waiter>,
    after: System,
)
    requires
        in_order(before),
        step(before, Action::Handle { position, failures, dependencies }, after),
    ensures
        in_order(after),
{
    let message = before.queue[position];
    let service = message.service();
    let record = before.records[service];
    let effects = record.effects(message);
    let fresh = failures + dependencies;
    let spawns = effects.spawn is Some;
    let definition = record.definition;
    assert(before.queue.contains(message));
    assert(carried(before, message));
    assert(after.records == delivered(before.records, message));
    assert(after.records.dom() =~= before.records.dom());
    if spawns {
        assert(message is Start && record.phase is Unstarted);
        assert(effects.spawn == Some(definition));
        if before.tasks.dom().contains(service) {
            assert(task_in_order(before, service));
        }
        assert(!before.tasks.dom().contains(service));
    } else {
        assert(after.tasks == before.tasks);
        assert(after.made == before.made);
    }
    let opens = if spawns {
        opening_messages(definition, failures, dependencies)
    } else {
        Seq::<MessageView>::empty()
    };
    assert forall|waiter: Waiter| before.made.contains(waiter)
        implies after.made.contains(waiter) by {}
    assert forall|i: int| 0 <= i < fresh.len() && spawns implies after.made.contains(
        #[trigger] fresh[i],
    ) by {
        assert(fresh.to_set().contains(fresh[i]));
    }
    assert forall|other: MessageView| #[trigger] carried(after, other)
        implies carried(before, other)
        || opens.contains(other) by {
        if after.queue.contains(other) {
            let i = choose|i: int| 0 <= i < after.queue.len() && after.queue[i] == other;
            if i < position {
                assert(before.queue[i] == other);
            } else {
                assert(before.queue[i + 1] == other);
            }
        } else {
            let name = choose|name: Seq<char>|
                after.tasks.dom().contains(name)
                    && #[trigger] after.tasks[name].outbox.contains(other);
            if !(spawns && name == service) {
                assert(before.tasks.dom().contains(name)
                    && before.tasks[name].outbox.contains(other));
            }
        }
    }
    assert forall|other: MessageView| opens.contains(other) implies match other {
        MessageView::FailOn { service, sender } => exists|j: int|
            0 <= j < failures.len() && #[trigger] failures[j] == sender,
        MessageView::DependOn { service, sender } => exists|j: int|
            0 <= j < dependencies.len() && #[trigger] dependencies[j] == sender
                && definition.after[j] == service,
        MessageView::Start { .. } => true,
        _ => false,
    } by {
        lemma_opening_message_shape(definition, failures, dependencies, other);
    }
    assert forall|name: Seq<char>, waiter: Waiter| #[trigger]
        kept_for_start(after, name, waiter) implies kept_for_start(before, name, waiter) || (name
        == service && message == MessageView::DependOn { service, sender: waiter }) by {
        if name == service && !record.once_started.contains(waiter) {
            let kept = record.after(message).once_started;
            let i = choose|i: int| 0 <= i < kept.len() && kept[i] == waiter;
            if i < record.once_started.len() {
                assert(record.once_started[i] == waiter);
            }
        }
    }
    assert forall|name: Seq<char>, waiter: Waiter| #[trigger]
        kept_for_failure(after, name, waiter) implies kept_for_failure(before, name, waiter) || (
    name == service && message == MessageView::FailOn { service, sender: waiter }) by {
        if name == service && !record.once_failed.contains(waiter) {
            let kept = record.after(message).once_failed;
            let i = choose|i: int| 0 <= i < kept.len() && kept[i] == waiter;
            if i < record.once_failed.len() {
                assert(record.once_failed[i] == waiter);
            }
        }
    }
    assert forall|waiter: Waiter| #[trigger] effects.fire.contains(waiter) implies {
        ||| message == MessageView::DependOn { service, sender: waiter }
            && record.phase.start_succeeded()
        ||| message == MessageView::Started { service, ok: true } && kept_for_start(
            before,
            service,
            waiter,
        )
        ||| message == MessageView::FailOn { service, sender: waiter }
        ||| kept_for_failure(before, service, waiter)
    } by {
        let i = choose|i: int| 0 <= i < effects.fire.len() && effects.fire[i] == waiter;
        assert(effects.fire[i] == waiter);
    }
    assert forall|waiter: Waiter| #[trigger] after.notified.contains(waiter)
        implies before.notified.contains(
        waiter,
    ) || effects.fire.contains(waiter) by {}
    assert forall|name: Seq<char>| has_started(before, name) implies has_started(after, name) by {}
    assert forall|name: Seq<char>| has_failed_to_start(before, name) implies has_failed_to_start(
        after,
        name,
    ) by {}
    assert forall|name: Seq<char>| has_succeeded(before, name)
        implies has_succeeded(after, name) by {}
    assert forall|name: Seq<char>| #[trigger]
        after.records.dom().contains(name) implies after.records[name].wf() by {
        assert(before.records.dom().contains(name));
        assert(before.records[name].wf());
    }
    assert forall|name: Seq<char>| #[trigger]
        start_failure_known(after, name) implies has_failed_to_start(after, name) by {
        let failure = MessageView::Started { service: name, ok: false };
        if carried(after, failure) {
            assert(carried(before, failure));
        } else if !(before.records[name].phase is StartFailed) {
            assert(message == failure);
        }
        assert(start_failure_known(before, name));
    }
    assert forall|name: Seq<char>| #[trigger] success_known(after, name) implies has_succeeded(
        after,
        name,
    ) by {
        let success = MessageView::Finished { service: name, ok: true };
        if carried(after, success) {
            assert(carried(before, success));
        } else if !(before.records[name].phase is RunSucceeded) {
            assert(message == success);
        }
        assert(success_known(before, name));
    }
    assert forall|name: Seq<char>, waiter: Waiter|
        reserved(before, waiter, name) && before.made.contains(waiter) implies reserved(
        after,
        waiter,
        name,
    ) by {
        assert forall|other: Seq<char>| #[trigger]
            kept_for_start(after, other, waiter) implies other == name by {
            if !kept_for_start(before, other, waiter) {
                assert(carried(before, MessageView::DependOn { service: other, sender: waiter }));
            }
        }
        assert forall|other: Seq<char>| !#[trigger] kept_for_failure(after, other, waiter) by {
            if kept_for_failure(after, other, waiter) {
                assert(!kept_for_failure(before, other, waiter));
                assert(carried(before, MessageView::FailOn { service: other, sender: waiter }));
            }
        }
        assert forall|other: Seq<char>| #[trigger]
            carried(after, MessageView::DependOn { service: other, sender: waiter }) implies other
            == name by {
            let registration = MessageView::DependOn { service: other, sender: waiter };
            if opens.contains(registration) {
                let j = choose|j: int|
                    0 <= j < dependencies.len() && #[trigger] dependencies[j] == waiter;
                assert(fresh[failures.len() + j] == waiter);
            }
        }
        assert forall|other: Seq<char>|
            !#[trigger] carried(after, MessageView::FailOn { service: other, sender: waiter }) by {
            let registration = MessageView::FailOn { service: other, sender: waiter };
            if opens.contains(registration) {
                let j = choose|j: int| 0 <= j < failures.len() && #[trigger] failures[j] == waiter;
                assert(fresh[j] == waiter);
            }
        }
    }
    assert forall|name: Seq<char>| #[trigger] after.tasks.dom().contains(name)
        implies task_in_order(
        after,
        name,
    ) by {
        let task = after.tasks[name];
        if spawns && name == service {
            assert(after.records[name].definition == definition);
            assert forall|k: int| 0 <= k < task.dependencies.len() implies {
                &&& after.made.contains(#[trigger] task.dependencies[k])
                &&& reserved(after, task.dependencies[k], definition.after[k])
                &&& after.notified.contains(task.dependencies[k]) ==> has_started(
                    after,
                    definition.after[k],
                )
            } by {
                let waiter = dependencies[k];
                assert(fresh[failures.len() + k] == waiter);
                assert(!before.made.contains(waiter));
                assert forall|other: Seq<char>| #[trigger]
                    kept_for_start(after, other, waiter) implies other == definition.after[k] by {
                    assert(!kept_for_start(before, other, waiter));
                }
                assert forall|other: Seq<char>| !#[trigger] kept_for_failure(after, other,
                    waiter) by {
                    assert(!kept_for_failure(before, other, waiter));
                }
                assert forall|other: Seq<char>| #[trigger]
                    carried(
                        after,
                        MessageView::DependOn { service: other, sender: waiter },
                    ) implies other == definition.after[k] by {
                    let registration = MessageView::DependOn { service: other, sender: waiter };
                    if carried(before, registration) {
                        assert(before.made.contains(registration.registers()[0]));
                    } else {
                        let j = choose|j: int|
                            0 <= j < dependencies.len() && #[trigger] dependencies[j] == waiter
                                && definition.after[j] == other;
                        assert(fresh[failures.len() + j] == fresh[failures.len() + k]);
                    }
                }
                assert forall|other: Seq<char>|
                    !#[trigger] carried(
                        after,
                        MessageView::FailOn { service: other, sender: waiter },
                    ) by {
                    let registration = MessageView::FailOn { service: other, sender: waiter };
                    if carried(before, registration) {
                        assert(before.made.contains(registration.registers()[0]));
                    } else if opens.contains(registration) {
                        let j = choose|j: int|
                            0 <= j < failures.len() && #[trigger] failures[j] == waiter;
                        assert(fresh[j] == fresh[failures.len() + k]);
                    }
                }
                assert(!effects.fire.contains(waiter));
            }
        } else {
            assert(before.tasks.dom().contains(name));
            assert(task_in_order(before, name));
            assert(after.tasks[name] == before.tasks[name]);
            assert(after.records[name].definition == before.records[name].definition);
            assert forall|k: int| 0 <= k < task.dependencies.len() implies {
                &&& after.made.contains(#[trigger] task.dependencies[k])
                &&& reserved(after, task.dependencies[k], after.records[name].definition.after[k])
                &&& after.notified.contains(task.dependencies[k]) ==> has_started(
                    after,
                    after.records[name].definition.after[k],
                )
            } by {
                let waiter = task.dependencies[k];
                let dependency = before.records[name].definition.after[k];
                assert(reserved(before, waiter, dependency));
                if effects.fire.contains(waiter) {
                    if message == (MessageView::DependOn { service, sender: waiter }) {
                        assert(service == dependency);
                        assert(has_started(before, dependency));
                    } else if message == (MessageView::Started { service, ok: true })
                        && kept_for_start(before, service, waiter) {
                        assert(service == dependency);
                        assert(has_started(before, dependency));
                    } else if message == (MessageView::FailOn { service, sender: waiter }) {
                        assert(false);
                    } else {
                        assert(kept_for_failure(before, service, waiter));
                        assert(false);
                    }
                }
            }
        }
    }
    assert forall|name: Seq<char>|
        after.records.dom().contains(name)
            && (#[trigger] after.records[name]).phase.start_succeeded() implies has_started(
        after,
        name,
    ) by {
        assert(before.records.dom().contains(name));
        if name == service && !record.phase.start_succeeded() {
            assert(message == MessageView::Started { service, ok: true });
            assert(has_started(before, name));
        } else {
            assert(before.records[name].phase.start_succeeded());
            assert(has_started(before, name));
        }
    }
    assert forall|name: Seq<char>| #[trigger]
        carried(after, MessageView::Started { service: name, ok: true }) implies has_started(
        after,
        name,
    ) by {
        assert(has_started(before, name));
    }
    assert forall|other: MessageView, i: int|
        #![trigger carried(after, other), other.registers()[i]]
        carried(after, other) && 0 <= i < other.registers().len() implies after.made.contains(
        other.registers()[i],
    ) by {
        if carried(before, other) {
            assert(before.made.contains(other.registers()[i]));
        } else {
            match other {
                MessageView::FailOn { service, sender } => {
                    let j = choose|j: int| 0 <= j < failures.len()
                        && #[trigger] failures[j] == sender;
                    assert(fresh[j] == sender);
                },
                MessageView::DependOn { service, sender } => {
                    let j = choose|j: int|
                        0 <= j < dependencies.len() && #[trigger] dependencies[j] == sender;
                    assert(fresh[failures.len() + j] == sender);
                },
                _ => {},
            }
        }
    }
    assert forall|name: Seq<char>, waiter: Waiter| #[trigger]
        kept_for_start(after, name, waiter) implies after.made.contains(waiter) by {
        if !kept_for_start(before, name, waiter) {
            assert(before.made.contains(message.registers()[0]));
        }
    }
    assert forall|name: Seq<char>, waiter: Waiter| #[trigger]
        kept_for_failure(after, name, waiter) implies after.made.contains(waiter) by {
        if !kept_for_failure(before, name, waiter) {
            assert(before.made.contains(message.registers()[0]));
        }
    }
    assert forall|waiter: Waiter| #[trigger] after.notified.contains(waiter)
        implies after.made.contains(
        waiter,
    ) by {
        if !before.notified.contains(waiter) {
            assert(effects.fire.contains(waiter));
            if message == (MessageView::DependOn { service, sender: waiter }) || message == (
            MessageView::FailOn { service, sender: waiter }) {
                assert(before.made.contains(message.registers()[0]));
            }
        }
    }
}

/// Whatever happens keeps the system in order.
pub proof fn lemma_step_keeps_order(before: System, action: Action, after: System)
    requires
        in_order(before),
        step(before, action, after),
    ensures
        in_order(after),
{
    match action {
        Action::Request { message } => {
            lemma_request_keeps_order(before, message, after);
        },
        Action::Handle { position, failures, dependencies } => {
            lemma_handle_keeps_order(before, position, failures, dependencies, after);
        },
        Action::Send { service } => {
            lemma_send_keeps_order(before, service, after);
        },
        Action::Settle { service, outcomes } => {
            lemma_report_keeps_order(before, service, EventView::DependenciesSettled(outcomes));
        },
        Action::Exit { service, ok } => {
            lemma_report_keeps_order(before, service, EventView::Exited(ok));
        },
        Action::Fail { service } => {
            lemma_report_keeps_order(before, service, EventView::Failure);
        },
    }
}

/// Every state of a run is in order.
pub proof fn lemma_runs_stay_in_order(
    records: Records,
    actions: Seq<Action>,
    states: Seq<System>,
    i: int,
)
    requires
        untouched(records),
        is_run(records, actions, states),
        0 <= i < states.len(),
    ensures
        in_order(states[i]),
    decreases i,
{
    if i == 0 {
        lemma_initial_in_order(records);
    } else {
        lemma_runs_stay_in_order(records, actions, states, i - 1);
        assert(step(states[i - 1], actions[i - 1], states[i - 1 + 1]));
        lemma_step_keeps_order(states[i - 1], actions[i - 1], states[i]);
    }
}

/// The start command of the service called `name` has been directed to be
/// executed.
pub open spec fn has_begun(system: System, name: Seq<char>) -> bool {
    system.tasks.dom().contains(name) && system.tasks[name].starts > 0
}

/// Dependency ordering. In every state of every run, if the start command
/// of a service has been directed to be executed, then the start command of
/// each of its dependencies has succeeded.
pub proof fn theorem_dependencies_start_first(
    records: Records,
    actions: Seq<Action>,
    states: Seq<System>,
    i: int,
    dependent: Seq<char>,
    k: int,
)
    requires
        untouched(records),
        is_run(records, actions, states),
        0 <= i < states.len(),
        has_begun(states[i], dependent),
        0 <= k < states[i].records[dependent].definition.after.len(),
    ensures
        has_started(states[i], states[i].records[dependent].definition.after[k]),
{
    lemma_runs_stay_in_order(records, actions, states, i);
    assert(task_in_order(states[i], dependent));
}

/// Dependency ordering, step by step. The start command of a service is
/// directed to be executed only by a step before which the start command of
/// each of its dependencies had already succeeded.
pub proof fn theorem_dependencies_started_before(
    records: Records,
    actions: Seq<Action>,
    states: Seq<System>,
    i: int,
    dependent: Seq<char>,
    k: int,
)
    requires
        untouched(records),
        is_run(records, actions, states),
        0 <= i < actions.len(),
        !has_begun(states[i], dependent),
        has_begun(states[i + 1], dependent),
        0 <= k < states[i + 1].records[dependent].definition.after.len(),
    ensures
        actions[i] is Settle,
        has_started(states[i], states[i + 1].records[dependent].definition.after[k]),
{
    lemma_runs_stay_in_order(records, actions, states, i);
    let before = states[i];
    let after = states[i + 1];
    assert(step(before, actions[i], after));
    match actions[i] {
        Action::Settle { service, outcomes } => {
            assert(service == dependent);
            assert(task_in_order(before, dependent));
            assert(outcomes[k]);
            assert(before.notified.contains(before.tasks[dependent].dependencies[k]));
        },
        Action::Exit { service, ok } => {
            assert(service == dependent);
        },
        Action::Fail { service } => {
            assert(service == dependent);
        },
        _ => {},
    }
}

/// Failure propagation. In every state of every run, if the start command
/// of a dependency of a service has failed, the start command of the
/// service has not been directed to be executed: it is not executed before
/// the failure, and it is not executed after it.
pub proof fn theorem_failed_dependency_blocks_start(
    records: Records,
    actions: Seq<Action>,
    states: Seq<System>,
    i: int,
    dependent: Seq<char>,
    k: int,
)
    requires
        untouched(records),
        is_run(records, actions, states),
        0 <= i < states.len(),
        states[i].tasks.dom().contains(dependent),
        0 <= k < states[i].records[dependent].definition.after.len(),
        has_failed_to_start(states[i], states[i].records[dependent].definition.after[k]),
    ensures
        !has_begun(states[i], dependent),
{
    lemma_runs_stay_in_order(records, actions, states, i);
    let dependency = states[i].records[dependent].definition.after[k];
    assert(task_in_order(states[i], dependent));
    assert(task_in_order(states[i], dependency));
}

/// Failure propagation, the report. In every run, when the start command of
/// a dependency of a service has failed and the driver of the service's
/// lifecycle, which still awaits its dependencies, reports how their
/// notifications have resolved, the lifecycle gives the service up: it
/// puts the report of the service's failure into its outbox, and the start
/// command is not directed to be executed. The notification of the failed
/// dependency can not have been delivered.
pub proof fn theorem_failed_dependency_is_reported(
    records: Records,
    actions: Seq<Action>,
    states: Seq<System>,
    i: int,
    dependent: Seq<char>,
    k: int,
)
    requires
        untouched(records),
        is_run(records, actions, states),
        0 <= i < actions.len(),
        actions[i] matches Action::Settle { service, .. } && service == dependent,
        states[i].tasks[dependent].stage is AwaitingDependencies,
        0 <= k < states[i].records[dependent].definition.after.len(),
        has_failed_to_start(states[i], states[i].records[dependent].definition.after[k]),
    ensures
        !states[i].notified.contains(states[i].tasks[dependent].dependencies[k]),
        states[i + 1].tasks[dependent].stage is GivenUp,
        states[i + 1].tasks[dependent].outbox == states[i].tasks[dependent].outbox.push(
            MessageView::Finished { service: dependent, ok: false },
        ),
        !has_begun(states[i + 1], dependent),
{
    lemma_runs_stay_in_order(records, actions, states, i);
    let before = states[i];
    let after = states[i + 1];
    assert(step(before, actions[i], after));
    let definition = before.records[dependent].definition;
    let dependency = definition.after[k];
    assert(task_in_order(before, dependent));
    assert(task_in_order(before, dependency));
    let outcomes = actions[i]->Settle_outcomes;
    if satisfied(definition, outcomes) {
        assert(outcomes[k]);
    }
    assert(after.tasks[dependent].outbox =~= before.tasks[dependent].outbox.push(
        MessageView::Finished { service: dependent, ok: false },
    ));
}

/// Failure propagation, the arrival. In every run, when the orchestrator
/// handles the report of the failure of a service whose lifecycle has given
/// it up, or whose run command has failed, every waiter that is registered
/// for the failure of the service is handed back to be notified, and the
/// record keeps none. From then on the record says that the service has
/// failed, so that a waiter that registers later is notified at once.
pub proof fn theorem_failure_report_notifies_the_waiters(
    records: Records,
    actions: Seq<Action>,
    states: Seq<System>,
    i: int,
    service: Seq<char>,
    k: int,
)
    requires
        untouched(records),
        is_run(records, actions, states),
        0 <= i < actions.len(),
        actions[i] matches Action::Handle { position, .. } && 0 <= position < states[i].queue.len()
            && states[i].queue[position] == (MessageView::Finished { service, ok: false }),
        states[i].tasks.dom().contains(service),
        states[i].tasks[service].stage is GivenUp || states[i].tasks[service].stage is RunFailed,
        0 <= k < states[i].records[service].once_failed.len(),
    ensures
        states[i + 1].notified.contains(states[i].records[service].once_failed[k]),
        states[i + 1].records[service].once_failed.len() == 0,
        states[i + 1].records[service].phase.failed(),
{
    lemma_runs_stay_in_order(records, actions, states, i);
    let before = states[i];
    let after = states[i + 1];
    assert(step(before, actions[i], after));
    let record = before.records[service];
    assert(task_in_order(before, service));
    assert(record.wf());
    if record.phase is StartFailed {
        assert(start_failure_known(before, service));
    }
    if record.phase is RunSucceeded {
        assert(success_known(before, service));
    }
    let report = MessageView::Finished { service, ok: false };
    assert(record.effects(report).fire == record.once_failed);
    assert(record.once_failed.to_set().contains(record.once_failed[k]));
}

/// A step neither removes a lifecycle nor replaces it by another, and it
/// takes back no execution of a command.
pub proof fn lemma_lifecycles_last(
    before: System,
    action: Action,
    after: System,
    service: Seq<char>,
)
    requires
        in_order(before),
        step(before, action, after),
        before.tasks.dom().contains(service),
    ensures
        after.tasks.dom().contains(service),
        before.tasks[service].starts <= after.tasks[service].starts,
        before.tasks[service].runs <= after.tasks[service].runs,
{
    assert(task_in_order(before, service));
}

/// At most one start. In every run, whoever asks for a service to be
/// started, however often and in whatever order, the service has one
/// lifecycle at most, which lasts; and the start command and the run command
/// are each directed to be executed at most once.
pub proof fn theorem_commands_run_at_most_once(
    records: Records,
    actions: Seq<Action>,
    states: Seq<System>,
    i: int,
    j: int,
    service: Seq<char>,
)
    requires
        untouched(records),
        is_run(records, actions, states),
        0 <= i <= j < states.len(),
        states[i].tasks.dom().contains(service),
    ensures
        states[j].tasks.dom().contains(service),
        states[i].tasks[service].starts <= states[j].tasks[service].starts <= 1,
        states[i].tasks[service].runs <= states[j].tasks[service].runs <= 1,
    decreases j - i,
{
    lemma_runs_stay_in_order(records, actions, states, j);
    if i < j {
        theorem_commands_run_at_most_once(records, actions, states, i, j - 1, service);
        lemma_runs_stay_in_order(records, actions, states, j - 1);
        assert(step(states[j - 1], actions[j - 1], states[j - 1 + 1]));
        lemma_lifecycles_last(states[j - 1], actions[j - 1], states[j], service);
    }
    assert(task_in_order(states[j], service));
}

/// The description is not too strict to describe anything: there is a run
/// in which a service with a dependency has its start command directed to be
/// executed, after the start command of the dependency has succeeded. In it
/// the service is asked to start, its lifecycle registers its waiters and
/// asks for the dependency to start, the dependency starts and the waiter is
/// handed back, and the driver reports the delivered notification.
pub proof fn lemma_a_dependent_can_begin(
    dependent: Seq<char>,
    dependency: Seq<char>,
    start: CommandView,
    run: CommandView,
    failure_waiter: Waiter,
    start_waiter: Waiter,
)
    requires
        dependent != dependency,
        failure_waiter != start_waiter,
    ensures
        exists|records: Records, actions: Seq<Action>, states: Seq<System>|
            untouched(records) && #[trigger] is_run(records, actions, states) && has_begun(
                states.last(),
                dependent,
            ) && records[dependent].definition.after == seq![dependency]
                && has_started(states.last(), dependency),
{
    let none = Seq::<Seq<char>>::empty();
    let definition = ServiceDefView {
        name: dependent,
        same: none,
        after: seq![dependency],
        start_command: start,
        run_command: run,
    };
    let required = ServiceDefView {
        name: dependency,
        same: none,
        after: none,
        start_command: start,
        run_command: run,
    };
    let records: Records = Map::<Seq<char>, ServiceStateView>::empty().insert(
        dependent,
        ServiceStateView::fresh(definition),
    ).insert(dependency, ServiceStateView::fresh(required));
    assert(untouched(records));
    let nobody = Seq::<Waiter>::empty();
    let fail_on = MessageView::FailOn { service: dependency, sender: failure_waiter };
    let depend_on = MessageView::DependOn { service: dependency, sender: start_waiter };
    let start_dependent = MessageView::Start { service: dependent };
    let start_dependency = MessageView::Start { service: dependency };
    let started_dependency = MessageView::Started { service: dependency, ok: true };

    let s0 = initial(records);
    let request = Action::Request { message: start_dependent };
    assert(start_dependent.registers() =~= nobody);
    assert(enabled(s0, request));
    let s1 = next(s0, request);
    assert(s1.queue =~= seq![start_dependent]);
    assert(s1.queue[0] == start_dependent);

    let spawn = Action::Handle {
        position: 0,
        failures: seq![failure_waiter],
        dependencies: seq![start_waiter],
    };
    assert(s1.records[dependent].effects(start_dependent).spawn == Some(definition));
    assert((seq![failure_waiter] + seq![start_waiter]) =~= seq![failure_waiter, start_waiter]);
    assert(seq![failure_waiter, start_waiter].no_duplicates());
    assert(s1.made =~= Set::<Waiter>::empty());
    assert(enabled(s1, spawn));
    let s2 = next(s1, spawn);
    assert(opening_messages(definition, seq![failure_waiter], seq![start_waiter]) =~= seq![
        fail_on,
        depend_on,
        start_dependency,
    ]) by {
        assert((definition.same + definition.after) =~= seq![dependency]);
    }
    assert(s2.tasks[dependent].outbox == seq![fail_on, depend_on, start_dependency]);
    assert(s2.queue =~= Seq::<MessageView>::empty());
    assert(s2.records[dependent].phase == Phase::Starting);
    assert(s2.records[dependency] == ServiceStateView::fresh(required));
    assert(s2.tasks.dom().contains(dependent));

    let send_dependent = Action::Send { service: dependent };
    assert(enabled(s2, send_dependent));
    let s3 = next(s2, send_dependent);
    assert(s3.queue =~= seq![fail_on]);
    assert(s3.tasks[dependent].outbox =~= seq![depend_on, start_dependency]);
    assert(enabled(s3, send_dependent));
    let s4 = next(s3, send_dependent);
    assert(s4.queue =~= seq![fail_on, depend_on]);
    assert(s4.tasks[dependent].outbox =~= seq![start_dependency]);
    assert(enabled(s4, send_dependent));
    let s5 = next(s4, send_dependent);
    assert(s5.queue =~= seq![fail_on, depend_on, start_dependency]);
    assert(s5.tasks[dependent].outbox =~= Seq::<MessageView>::empty());
    assert(s5.records == s2.records);

    let handle = Action::Handle { position: 0, failures: nobody, dependencies: nobody };
    assert(s5.queue[0] == fail_on);
    assert(s5.records[dependency].effects(fail_on).spawn is None);
    assert(enabled(s5, handle));
    let s6 = next(s5, handle);
    assert(s6.queue =~= seq![depend_on, start_dependency]);
    assert(s6.records[dependency].phase == Phase::Unstarted);
    assert(s6.records[dependency].once_started =~= nobody);
    assert(s6.records[dependency].definition == required);
    assert(s6.records.dom().contains(dependency));
    assert(s6.tasks == s5.tasks);

    assert(s6.queue[0] == depend_on);
    assert(s6.records[dependency].effects(depend_on).spawn is None);
    assert(enabled(s6, handle));
    let s7 = next(s6, handle);
    assert(s7.queue =~= seq![start_dependency]);
    assert(s7.records[dependency].phase == Phase::Unstarted);
    assert(s7.records[dependency].once_started =~= seq![start_waiter]);
    assert(s7.records[dependency].definition == required);
    assert(s7.records.dom().contains(dependency));
    assert(s7.tasks == s5.tasks);

    assert(s7.queue[0] == start_dependency);
    assert(s7.records[dependency].effects(start_dependency).spawn == Some(required));
    assert((nobody + nobody) =~= nobody);
    assert(enabled(s7, handle));
    let s8 = next(s7, handle);
    assert(s8.queue =~= Seq::<MessageView>::empty());
    assert(s8.records[dependency].phase == Phase::Starting);
    assert(s8.records[dependency].once_started =~= seq![start_waiter]);
    assert(s8.records[dependency].definition == required);
    assert(s8.records.dom().contains(dependency));
    assert(opening_messages(required, nobody, nobody) =~= Seq::<MessageView>::empty()) by {
        assert((required.same + required.after) =~= none);
    }
    assert(s8.tasks.dom().contains(dependency));
    assert(s8.tasks[dependency].stage == Stage::AwaitingDependencies);
    assert(s8.tasks[dependency].outbox =~= Seq::<MessageView>::empty());
    assert(s8.tasks[dependent] == s5.tasks[dependent]);
    assert(s8.tasks.dom().contains(dependent));

    let no_outcomes = Seq::<bool>::empty();
    let settle_dependency = Action::Settle { service: dependency, outcomes: no_outcomes };
    assert(enabled(s8, settle_dependency));
    let s9 = next(s8, settle_dependency);
    assert(satisfied(required, no_outcomes));
    assert(s9.tasks[dependency].stage == Stage::Starting);
    assert(s9.tasks[dependency].outbox =~= Seq::<MessageView>::empty());
    assert(s9.tasks.dom().contains(dependency));

    let exit_dependency = Action::Exit { service: dependency, ok: true };
    assert(enabled(s9, exit_dependency));
    let s10 = next(s9, exit_dependency);
    assert(s10.tasks[dependency].stage == Stage::Running);
    assert(s10.tasks[dependency].started);
    assert(s10.tasks[dependency].outbox =~= seq![started_dependency]);
    assert(s10.tasks.dom().contains(dependency));
    assert(s10.queue =~= Seq::<MessageView>::empty());

    let send_dependency = Action::Send { service: dependency };
    assert(enabled(s10, send_dependency));
    let s11 = next(s10, send_dependency);
    assert(s11.queue =~= seq![started_dependency]);
    assert(s11.records == s8.records);
    assert(s11.tasks[dependency].started);
    assert(s11.tasks.dom().contains(dependency));
    assert(s11.tasks.dom().contains(dependent));
    assert(s11.tasks[dependent] == s5.tasks[dependent]);

    assert(s11.queue[0] == started_dependency);
    assert(s11.records[dependency].effects(started_dependency).spawn is None);
    assert(s11.records[dependency].effects(started_dependency).fire == seq![start_waiter]);
    assert(enabled(s11, handle));
    let s12 = next(s11, handle);
    assert(seq![start_waiter].to_set().contains(start_waiter)) by {
        assert(seq![start_waiter][0] == start_waiter);
    }
    assert(s12.notified.contains(start_waiter));
    assert(s12.tasks == s11.tasks);
    assert(s12.records[dependent].definition == definition);

    let outcomes = seq![true];
    let settle_dependent = Action::Settle { service: dependent, outcomes };
    assert(s12.tasks[dependent].dependencies == seq![start_waiter]);
    assert(enabled(s12, settle_dependent));
    let s13 = next(s12, settle_dependent);
    assert(satisfied(definition, outcomes));
    assert(s12.tasks[dependent].stage == Stage::AwaitingDependencies);
    assert(s13.tasks[dependent].starts > 0);
    assert(s13.tasks.dom().contains(dependent));
    assert(s13.tasks[dependency].started);
    assert(s13.tasks.dom().contains(dependency));

    let actions = seq![
        request,
        spawn,
        send_dependent,
        send_dependent,
        send_dependent,
        handle,
        handle,
        handle,
        settle_dependency,
        exit_dependency,
        send_dependency,
        handle,
        settle_dependent,
    ];
    let states = seq![s0, s1, s2, s3, s4, s5, s6, s7, s8, s9, s10, s11, s12, s13];
    assert forall|i: int| 0 <= i < actions.len() implies #[trigger] step(
        states[i],
        actions[i],
        states[i + 1],
    ) by {
        if i < 4 {
            if i == 0 {
            } else if i == 1 {
            } else if i == 2 {
            } else {
            }
        } else if i < 8 {
            if i == 4 {
            } else if i == 5 {
            } else if i == 6 {
            } else {
            }
        } else {
            if i == 8 {
            } else if i == 9 {
            } else if i == 10 {
            } else if i == 11 {
            } else {
            }
        }
    }
    assert(is_run(records, actions, states));
    assert(states.last() == s13);
    assert(records[dependent].definition.after == seq![dependency]);
}

} // verus!
