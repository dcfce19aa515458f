use crate::channel::Waiter;
use crate::definition::{defined, valid, ServiceDefView};
use crate::lifecycle::{
    gives_up, ignores, opening, satisfied, DirectiveView, EventView, Stage, StepView,
};
use crate::orchestrator::{delivered, EffectsView, MessageView, ServiceStateView};
use vstd::multiset::Multiset;
use vstd::prelude::*;

verus! {

/// The records of the services, each under the service's name.
pub type Records = Map<Seq<char>, ServiceStateView>;

/// Every message of the sequence is about a service that has a record.
pub open spec fn all_known(records: Records, messages: Seq<MessageView>) -> bool {
    forall|i: int| 0 <= i < messages.len()
        ==> records.dom().contains((#[trigger] messages[i]).service())
}

/// The records after the messages have been handled one by one, in order.
pub open spec fn delivered_all(records: Records, messages: Seq<MessageView>) -> Records
    decreases messages.len(),
{
    if messages.len() == 0 {
        records
    } else {
        delivered(delivered_all(records, messages.drop_last()), messages.last())
    }
}

/// What handling the message at position `i` asks of the outside world, the
/// messages before it having been handled.
pub open spec fn effects_at(records: Records, messages: Seq<MessageView>, i: int) -> EffectsView {
    delivered_all(records, messages.take(i))[messages[i].service()].effects(messages[i])
}

/// Handling messages neither adds nor removes a record, and leaves every
/// definition as it was.
pub proof fn lemma_records_stay(records: Records, messages: Seq<MessageView>)
    requires
        all_known(records, messages),
    ensures
        delivered_all(records, messages).dom() == records.dom(),
        forall|name: Seq<char>| #[trigger]
            records.dom().contains(name) ==> delivered_all(records, messages)[name].definition
                == records[name].definition,
    decreases messages.len(),
{
    if messages.len() > 0 {
        let earlier = messages.drop_last();
        assert forall|i: int| 0 <= i < earlier.len() implies records.dom().contains(
            (#[trigger] earlier[i]).service(),
        ) by {
            assert(earlier[i] == messages[i]);
        }
        lemma_records_stay(records, earlier);
        assert(records.dom().contains(messages[messages.len() - 1].service()));
        assert(delivered_all(records, messages).dom() =~= records.dom());
    }
}

/// A message about one service leaves the record of every other service as
/// it was.
pub proof fn lemma_others_untouched(records: Records, message: MessageView, name: Seq<char>)
    requires
        name != message.service(),
    ensures
        delivered(records, message).dom().contains(name) == records.dom().contains(name),
        delivered(records, message)[name] == records[name],
{
}

/// How many of the messages made the orchestrator hand out the lifecycle of
/// `service`.
pub open spec fn lifecycles(records: Records, messages: Seq<MessageView>, service: Seq<char>) -> nat
    decreases messages.len(),
{
    if messages.len() == 0 {
        0
    } else {
        let earlier = lifecycles(records, messages.drop_last(), service);
        if messages.last().service() == service && effects_at(
            records,
            messages,
            messages.len() - 1,
        ).spawn is Some {
            earlier + 1
        } else {
            earlier
        }
    }
}

/// Some message of the sequence asks for `service` to be started.
pub open spec fn asks_to_start(messages: Seq<MessageView>, service: Seq<char>) -> bool {
    exists|i: int| 0 <= i < messages.len()
        && #[trigger] messages[i] == (MessageView::Start { service })
}

/// A service is started at most once. Whatever messages arrive, and however
/// often `Start` is among them, the orchestrator hands out the lifecycle of
/// a service exactly once if the service was not started before and a
/// `Start` for it arrives, and never otherwise. From then on the service
/// counts as started.
pub proof fn lemma_started_at_most_once(
    records: Records,
    messages: Seq<MessageView>,
    service: Seq<char>,
)
    requires
        all_known(records, messages),
        records.dom().contains(service),
    ensures
        lifecycles(records, messages, service) == if records[service].phase is Unstarted
            && asks_to_start(messages, service) {
            1nat
        } else {
            0nat
        },
        delivered_all(records, messages)[service].phase is Unstarted
            <==> records[service].phase is Unstarted
            && !asks_to_start(messages, service),
    decreases messages.len(),
{
    if messages.len() == 0 {
    } else {
        let earlier = messages.drop_last();
        let last = messages.last();
        assert forall|i: int| 0 <= i < earlier.len() implies records.dom().contains(
            (#[trigger] earlier[i]).service(),
        ) by {
            assert(earlier[i] == messages[i]);
        }
        lemma_started_at_most_once(records, earlier, service);
        lemma_records_stay(records, earlier);
        assert(messages.take(messages.len() - 1) =~= earlier);
        let before = delivered_all(records, earlier);
        if asks_to_start(earlier, service) {
            let i = choose|i: int|
                0 <= i < earlier.len() && #[trigger] earlier[i] == (MessageView::Start { service });
            assert(messages[i] == earlier[i]);
        }
        if last == (MessageView::Start { service }) {
            assert(messages[messages.len() - 1] == last);
        }
        if asks_to_start(messages, service) && !asks_to_start(earlier, service) {
            let i = choose|i: int|
                0 <= i < messages.len()
                    && #[trigger] messages[i] == (MessageView::Start { service });
            if i < earlier.len() {
                assert(earlier[i] == messages[i]);
            }
            assert(last == (MessageView::Start { service }));
        }
        if last.service() != service {
            lemma_others_untouched(before, last, service);
        }
    }
}

/// The lifecycle that is handed out for a service is that of the service's
/// own definition.
pub proof fn lemma_lifecycle_of_own_definition(
    records: Records,
    messages: Seq<MessageView>,
    i: int,
)
    requires
        all_known(records, messages),
        0 <= i < messages.len(),
        effects_at(records, messages, i).spawn is Some,
    ensures
        messages[i] is Start,
        effects_at(records, messages, i).spawn == Some(records[messages[i].service()].definition),
{
    let earlier = messages.take(i);
    assert forall|j: int| 0 <= j < earlier.len() implies records.dom().contains(
        (#[trigger] earlier[j]).service(),
    ) by {
        assert(earlier[j] == messages[j]);
    }
    lemma_records_stay(records, earlier);
}

/// Once the start command of a service has succeeded, no message takes that
/// back.
pub proof fn lemma_start_success_lasts(
    records: Records,
    messages: Seq<MessageView>,
    service: Seq<char>,
)
    requires
        all_known(records, messages),
        records.dom().contains(service),
        records[service].phase.start_succeeded(),
    ensures
        delivered_all(records, messages)[service].phase.start_succeeded(),
    decreases messages.len(),
{
    if messages.len() > 0 {
        let earlier = messages.drop_last();
        assert forall|i: int| 0 <= i < earlier.len() implies records.dom().contains(
            (#[trigger] earlier[i]).service(),
        ) by {
            assert(earlier[i] == messages[i]);
        }
        lemma_start_success_lasts(records, earlier, service);
        if messages.last().service() != service {
            lemma_others_untouched(delivered_all(records, earlier), messages.last(), service);
        }
    }
}

/// Late registration. A waiter that registers for the start of a service
/// after the start command has succeeded is notified at once, whatever
/// messages were handled in between: it is handed back to be notified, it is
/// not kept, and the record does not change.
pub proof fn lemma_late_registration(
    records: Records,
    messages: Seq<MessageView>,
    service: Seq<char>,
    sender: Waiter,
)
    requires
        all_known(records, messages),
        records.dom().contains(service),
        records[service].phase.start_succeeded(),
    ensures
        ({
            let now = delivered_all(records, messages)[service];
            let registration = MessageView::DependOn { service, sender };
            &&& now.effects(registration).fire == seq![sender]
            &&& now.effects(registration).cancel == Seq::<Waiter>::empty()
            &&& now.after(registration) == now
        }),
{
    lemma_start_success_lasts(records, messages, service);
    let now = delivered_all(records, messages)[service];
    let registration = MessageView::DependOn { service, sender };
    assert(now.after(registration) =~= now);
}

/// The waiters that a record keeps.
pub open spec fn waiting(record: ServiceStateView) -> Multiset<Waiter> {
    record.once_started.to_multiset().add(record.once_failed.to_multiset())
}

/// The waiters that handling a message lets go of, notified or dropped.
pub open spec fn released(effects: EffectsView) -> Multiset<Waiter> {
    effects.fire.to_multiset().add(effects.cancel.to_multiset())
}

/// Every waiter is accounted for once. The waiters that a record kept
/// before a message, together with the one that the message brings, are the
/// waiters that the record keeps afterwards together with those that are
/// notified or dropped: none is lost, none is notified twice, none is both
/// notified and kept.
pub proof fn lemma_waiters_accounted_for(record: ServiceStateView, message: MessageView)
    ensures
        waiting(record).add(message.registers().to_multiset()) == waiting(
            record.after(message),
        ).add(released(record.effects(message))),
{
    broadcast use vstd::seq_lib::group_to_multiset_ensures;

    let next = record.after(message);
    let effects = record.effects(message);
    let none = Seq::<Waiter>::empty();
    assert(none.to_multiset() =~= Multiset::<Waiter>::empty());
    match message {
        MessageView::DependOn { sender, .. } => {
            assert(seq![sender] =~= none.push(sender));
            assert(waiting(record).add(message.registers().to_multiset()) =~= waiting(next).add(
                released(effects),
            ));
        },
        MessageView::FailOn { sender, .. } => {
            assert(seq![sender] =~= none.push(sender));
            assert(waiting(record).add(message.registers().to_multiset()) =~= waiting(next).add(
                released(effects),
            ));
        },
        _ => {
            assert(waiting(record).add(message.registers().to_multiset()) =~= waiting(next).add(
                released(effects),
            ));
        },
    }
}

/// Every waiter that is kept when its event happens is notified. The message
/// that reports the success of the start command hands back every waiter
/// kept for the start, and the message that reports the failure of a service
/// hands back every waiter kept for the failure; the record keeps none of
/// them.
pub proof fn lemma_event_releases_every_waiter(record: ServiceStateView, name: Seq<char>)
    ensures
        record.phase is Starting ==> {
            let report = MessageView::Started { service: name, ok: true };
            &&& record.effects(report).fire == record.once_started
            &&& record.after(report).once_started == Seq::<Waiter>::empty()
        },
        record.phase is Starting || record.phase is Running ==> {
            let report = MessageView::Finished { service: name, ok: false };
            &&& record.effects(report).fire == record.once_failed
            &&& record.after(report).once_failed == Seq::<Waiter>::empty()
        },
{
}

/// The waiters that the messages about `service` bring.
pub open spec fn registered(messages: Seq<MessageView>, service: Seq<char>) -> Multiset<Waiter>
    decreases messages.len(),
{
    if messages.len() == 0 {
        Multiset::empty()
    } else if messages.last().service() == service {
        registered(messages.drop_last(), service).add(messages.last().registers().to_multiset())
    } else {
        registered(messages.drop_last(), service)
    }
}

/// The waiters of `service` that handling the messages lets go of, notified
/// or dropped.
pub open spec fn released_all(
    records: Records,
    messages: Seq<MessageView>,
    service: Seq<char>,
) -> Multiset<Waiter>
    decreases messages.len(),
{
    if messages.len() == 0 {
        Multiset::empty()
    } else if messages.last().service() == service {
        released_all(records, messages.drop_last(), service).add(
            released(effects_at(records, messages, messages.len() - 1)),
        )
    } else {
        released_all(records, messages.drop_last(), service)
    }
}

/// Notification exactly once, over any run of the orchestrator. For every
/// service, the waiters that its record kept at the outset and those that
/// the messages brought are the waiters that were notified or dropped on
/// the way together with those that the record still keeps: each waiter is
/// let go of at most once, and while it is kept it has not been let go of.
pub proof fn lemma_exactly_once(records: Records, messages: Seq<MessageView>, service: Seq<char>)
    requires
        all_known(records, messages),
        records.dom().contains(service),
    ensures
        waiting(records[service]).add(registered(messages, service)) == waiting(
            delivered_all(records, messages)[service],
        ).add(released_all(records, messages, service)),
    decreases messages.len(),
{
    if messages.len() == 0 {
        assert(waiting(records[service]).add(Multiset::empty()) =~= waiting(records[service]));
    } else {
        let earlier = messages.drop_last();
        let last = messages.last();
        assert forall|i: int| 0 <= i < earlier.len() implies records.dom().contains(
            (#[trigger] earlier[i]).service(),
        ) by {
            assert(earlier[i] == messages[i]);
        }
        lemma_exactly_once(records, earlier, service);
        assert(messages.take(messages.len() - 1) =~= earlier);
        let before = delivered_all(records, earlier);
        if last.service() == service {
            lemma_waiters_accounted_for(before[service], last);
            let kept = waiting(before[service]);
            let gone = released_all(records, earlier, service);
            let brought = last.registers().to_multiset();
            let kept_after = waiting(before[service].after(last));
            let gone_now = released(before[service].effects(last));
            assert(waiting(records[service]).add(registered(earlier, service)).add(brought)
                =~= kept.add(brought).add(gone));
            assert(kept_after.add(gone_now).add(gone) =~= kept_after.add(gone.add(gone_now)));
        } else {
            lemma_others_untouched(before, last, service);
        }
    }
}

/// The stage of a lifecycle after the events have been reported to it one by
/// one, in order.
pub open spec fn stage_after(
    definition: ServiceDefView,
    stage: Stage,
    events: Seq<EventView>,
) -> Stage
    decreases events.len(),
{
    if events.len() == 0 {
        stage
    } else {
        stage_after(definition, stage, events.drop_last()).after(definition, events.last())
    }
}

/// The answer of a lifecycle to the event at position `i`, the events before
/// it having been reported.
pub open spec fn answer_at(
    definition: ServiceDefView,
    stage: Stage,
    events: Seq<EventView>,
    i: int,
) -> StepView {
    stage_after(definition, stage, events.take(i)).answer(definition, events[i])
}

/// How far along a stage is: a lifecycle never goes back.
pub open spec fn progress(stage: Stage) -> nat {
    match stage {
        Stage::AwaitingDependencies => 0,
        Stage::Starting => 1,
        Stage::Running => 2,
        _ => 3,
    }
}

/// A lifecycle never goes back to an earlier stage, and an answer that
/// directs a command to be executed moves it forward.
pub proof fn lemma_stages_advance(
    definition: ServiceDefView,
    stage: Stage,
    events: Seq<EventView>,
    i: int,
)
    requires
        0 <= i <= events.len(),
    ensures
        progress(stage) <= progress(stage_after(definition, stage, events.take(i))),
        progress(stage_after(definition, stage, events.take(i))) <= progress(
            stage_after(definition, stage, events),
        ),
        i < events.len() && (answer_at(definition, stage, events, i).directive is Start
            || answer_at(definition, stage, events, i).directive is Run) ==> progress(
            stage_after(definition, stage, events.take(i)),
        ) < progress(stage_after(definition, stage, events.take(i + 1))),
    decreases events.len() - i,
{
    lemma_stage_only_advances(definition, stage, events.take(i));
    if i == events.len() {
        assert(events.take(i) =~= events);
    } else {
        assert(events.take(i + 1).drop_last() =~= events.take(i));
        assert(events.take(i + 1).last() == events[i]);
        lemma_stages_advance(definition, stage, events, i + 1);
    }
}

/// The stage after any events is no earlier than the stage before them.
pub proof fn lemma_stage_only_advances(
    definition: ServiceDefView,
    stage: Stage,
    events: Seq<EventView>,
)
    ensures
        progress(stage) <= progress(stage_after(definition, stage, events)),
    decreases events.len(),
{
    if events.len() > 0 {
        lemma_stage_only_advances(definition, stage, events.drop_last());
    }
}

/// Each command is executed at most once. Whatever events are reported to a
/// lifecycle, in whatever stage it begins, at most one of its answers
/// directs the start command to be executed, and at most one the run
/// command.
pub proof fn lemma_commands_at_most_once(
    definition: ServiceDefView,
    stage: Stage,
    events: Seq<EventView>,
    i: int,
    j: int,
)
    requires
        0 <= i < j < events.len(),
    ensures
        !(answer_at(definition, stage, events, i).directive is Start && answer_at(
            definition,
            stage,
            events,
            j,
        ).directive is Start),
        !(answer_at(definition, stage, events, i).directive is Run && answer_at(
            definition,
            stage,
            events,
            j,
        ).directive is Run),
{
    let earlier = events.take(j);
    assert(earlier.take(i) =~= events.take(i));
    assert(earlier.take(i + 1) =~= events.take(i + 1));
    assert(earlier[i] == events[i]);
    lemma_stages_advance(definition, stage, earlier, i);
    lemma_stages_advance(definition, stage, earlier, i + 1);
}

/// Dependency ordering, on the side of the lifecycle. The start command is
/// directed to be executed only in answer to the report that the
/// notification of every dependency was delivered, and it is the start
/// command of the service's definition. The run command is directed only in
/// answer to the report that the start command succeeded.
pub proof fn lemma_start_waits_for_dependencies(
    definition: ServiceDefView,
    stage: Stage,
    events: Seq<EventView>,
    i: int,
)
    requires
        0 <= i < events.len(),
    ensures
        answer_at(definition, stage, events, i).directive is Start ==> {
            &&& events[i] matches EventView::DependenciesSettled(outcomes)
            &&& satisfied(definition, outcomes)
            &&& answer_at(definition, stage, events, i).directive == DirectiveView::Start(
                definition.start_command,
            )
        },
        answer_at(definition, stage, events, i).directive is Run ==> {
            &&& events[i] == EventView::Exited(true)
            &&& stage_after(definition, stage, events.take(i)) is Starting
            &&& answer_at(definition, stage, events, i).directive == DirectiveView::Run(
                definition.run_command,
            )
        },
{
}

/// Dependency ordering, on the side of the orchestrator. A waiter for the
/// start of a service is handed back to be notified only when the start
/// command of that service has succeeded: by the message that reports the
/// success, or by a registration that comes after it.
pub proof fn lemma_notified_only_after_start(record: ServiceStateView, message: MessageView)
    requires
        record.effects(message).fire.len() > 0,
        message is DependOn || message is Started,
    ensures
        record.after(message).phase.start_succeeded(),
        message is Started ==> record.effects(message).fire == record.once_started,
        message is DependOn ==> record.effects(message).fire == message.registers(),
{
}

/// A lifecycle that is over stays over, sends nothing more and directs
/// nothing more.
pub proof fn lemma_over_is_over(
    definition: ServiceDefView,
    stage: Stage,
    events: Seq<EventView>,
    i: int,
)
    requires
        stage.is_final(),
        0 <= i < events.len(),
    ensures
        stage_after(definition, stage, events) == stage,
        answer_at(definition, stage, events, i) == ignores(stage),
    decreases events.len(),
{
    lemma_final_stage_stays(definition, stage, events);
    lemma_final_stage_stays(definition, stage, events.take(i));
}

/// A lifecycle that is over stays in its stage.
pub proof fn lemma_final_stage_stays(
    definition: ServiceDefView,
    stage: Stage,
    events: Seq<EventView>,
)
    requires
        stage.is_final(),
    ensures
        stage_after(definition, stage, events) == stage,
    decreases events.len(),
{
    if events.len() > 0 {
        lemma_final_stage_stays(definition, stage, events.drop_last());
    }
}

/// Failure propagation, on the side of the lifecycle. If the first report to
/// a lifecycle is that some dependency's notification was not delivered, the
/// lifecycle answers by reporting the failure of its own service, once, and
/// no answer ever directs a command to be executed.
pub proof fn lemma_unmet_dependency_gives_up(
    definition: ServiceDefView,
    events: Seq<EventView>,
    outcomes: Seq<bool>,
    i: int,
)
    requires
        0 <= i < events.len(),
        events[0] == EventView::DependenciesSettled(outcomes),
        !satisfied(definition, outcomes),
    ensures
        answer_at(definition, Stage::AwaitingDependencies, events, 0) == gives_up(definition),
        i > 0 ==> answer_at(definition, Stage::AwaitingDependencies, events, i) == ignores(
            Stage::GivenUp,
        ),
        !(answer_at(definition, Stage::AwaitingDependencies, events, i).directive is Start),
        !(answer_at(definition, Stage::AwaitingDependencies, events, i).directive is Run),
{
    let first = events.take(1);
    assert(first.drop_last() =~= Seq::<EventView>::empty());
    assert(first.last() == events[0]);
    assert(stage_after(definition, Stage::AwaitingDependencies, first.drop_last())
        == Stage::AwaitingDependencies);
    assert(stage_after(definition, Stage::AwaitingDependencies, first) == Stage::GivenUp);
    assert(events.take(0) =~= Seq::<EventView>::empty());
    if i > 0 {
        let rest = events.skip(1);
        lemma_stage_after_split(definition, Stage::AwaitingDependencies, events.take(i), 1);
        assert(events.take(i).take(1) =~= first);
        lemma_final_stage_stays(definition, Stage::GivenUp, events.take(i).skip(1));
    }
}

/// Reporting a sequence of events is reporting its first part and then the
/// rest.
pub proof fn lemma_stage_after_split(
    definition: ServiceDefView,
    stage: Stage,
    events: Seq<EventView>,
    k: int,
)
    requires
        0 <= k <= events.len(),
    ensures
        stage_after(definition, stage, events) == stage_after(
            definition,
            stage_after(definition, stage, events.take(k)),
            events.skip(k),
        ),
    decreases events.len(),
{
    if k == events.len() {
        assert(events.take(k) =~= events);
        assert(events.skip(k) =~= Seq::<EventView>::empty());
    } else {
        lemma_stage_after_split(definition, stage, events.drop_last(), k);
        assert(events.drop_last().take(k) =~= events.take(k));
        assert(events.skip(k).drop_last() =~= events.drop_last().skip(k));
        assert(events.skip(k).last() == events.last());
    }
}

/// Failure propagation, on the side of the orchestrator. When the start
/// command of a service is reported to have failed, every waiter for its
/// start is dropped, none is notified; and when a service that has been told
/// to start is reported to have failed, every waiter for its failure is
/// handed back to be notified, and none is kept.
pub proof fn lemma_failure_reaches_the_waiters(record: ServiceStateView, name: Seq<char>)
    requires
        record.phase is Starting,
    ensures
        ({
            let report = MessageView::Started { service: name, ok: false };
            &&& record.effects(report).cancel == record.once_started
            &&& record.effects(report).fire == Seq::<Waiter>::empty()
            &&& record.after(report).once_started == Seq::<Waiter>::empty()
        }),
        ({
            let report = MessageView::Finished { service: name, ok: false };
            &&& record.effects(report).fire == record.once_failed
            &&& record.effects(report).cancel == record.once_started
            &&& record.after(report).once_failed == Seq::<Waiter>::empty()
            &&& record.after(report).once_started == Seq::<Waiter>::empty()
            &&& record.after(report).phase.failed()
        }),
{
}

/// A lifecycle that nothing disturbs executes each command once: when the
/// dependencies are reported to have started, the start command to have
/// succeeded and the run command to have ended, the answers are to execute
/// the start command, to report the start and execute the run command, and
/// to report the end and stop.
pub proof fn lemma_undisturbed_lifecycle(
    definition: ServiceDefView,
    outcomes: Seq<bool>,
    run_succeeded: bool,
)
    requires
        satisfied(definition, outcomes),
    ensures
        ({
            let events = seq![
                EventView::DependenciesSettled(outcomes),
                EventView::Exited(true),
                EventView::Exited(run_succeeded),
            ];
            let begin = Stage::AwaitingDependencies;
            &&& answer_at(definition, begin, events, 0) == StepView {
                messages: Seq::empty(),
                directive: DirectiveView::Start(definition.start_command),
            }
            &&& answer_at(definition, begin, events, 1) == StepView {
                messages: seq![MessageView::Started { service: definition.name, ok: true }],
                directive: DirectiveView::Run(definition.run_command),
            }
            &&& answer_at(definition, begin, events, 2) == StepView {
                messages: seq![
                    MessageView::Finished { service: definition.name, ok: run_succeeded },
                ],
                directive: DirectiveView::Stop,
            }
            &&& stage_after(definition, begin, events).is_final()
        }),
{
    let events = seq![
        EventView::DependenciesSettled(outcomes),
        EventView::Exited(true),
        EventView::Exited(run_succeeded),
    ];
    let begin = Stage::AwaitingDependencies;
    assert(events.take(0) =~= Seq::<EventView>::empty());
    assert(events.take(1) =~= seq![events[0]]);
    assert(events.take(1).drop_last() =~= Seq::<EventView>::empty());
    assert(events.take(2).drop_last() =~= events.take(1));
    assert(events.take(2).last() == events[1]);
    assert(events.drop_last() =~= events.take(2));
    assert(stage_after(definition, begin, events.take(1)) == Stage::Starting);
    assert(stage_after(definition, begin, events.take(2)) == Stage::Running);
}

/// A phase that is final is left by no message. In particular a `Start` for
/// a service that is over does not start it again.
pub proof fn lemma_final_phase_stays(record: ServiceStateView, message: MessageView)
    requires
        record.phase.is_final(),
    ensures
        record.after(message).phase == record.phase,
        record.effects(message).spawn is None,
{
}

/// No waiter is kept for an event that has happened or can no longer happen,
/// whatever messages are handled: if every record is well-formed at the
/// outset, every record is well-formed afterwards.
pub proof fn lemma_records_stay_well_formed(records: Records, messages: Seq<MessageView>)
    requires
        all_known(records, messages),
        forall|name: Seq<char>| #[trigger] records.dom().contains(name) ==> records[name].wf(),
    ensures
        forall|name: Seq<char>| #[trigger]
            records.dom().contains(name) ==> delivered_all(records, messages)[name].wf(),
    decreases messages.len(),
{
    if messages.len() > 0 {
        let earlier = messages.drop_last();
        assert forall|i: int| 0 <= i < earlier.len() implies records.dom().contains(
            (#[trigger] earlier[i]).service(),
        ) by {
            assert(earlier[i] == messages[i]);
        }
        lemma_records_stay_well_formed(records, earlier);
        lemma_records_stay(records, earlier);
        let before = delivered_all(records, earlier);
        let last = messages.last();
        assert(records.dom().contains(messages[messages.len() - 1].service()));
        assert forall|name: Seq<char>| #[trigger] records.dom().contains(name) implies delivered(
            before,
            last,
        )[name].wf() by {
            assert(before[name].wf());
            if name == last.service() {
                assert(before[last.service()].wf());
            }
        }
    }
}

/// The messages with which a lifecycle opens are about services that are
/// defined, if the definitions are valid: the orchestrator knows every
/// service that it will be asked about.
pub proof fn lemma_opening_names_defined_services(
    definitions: Seq<ServiceDefView>,
    index: int,
    position: int,
)
    requires
        valid(definitions),
        0 <= index < definitions.len(),
        0 <= position < opening(definitions[index]).len(),
    ensures
        defined(definitions, opening(definitions[index])[position].service),
{
    let definition = definitions[index];
    let same = definition.same.len();
    let after = definition.after.len();
    if position < same {
        assert(opening(definition)[position].service == definition.same[position]);
    } else if position < same + after {
        assert(opening(definition)[position].service == definition.after[position - same]);
    } else if position < same + after + same {
        assert(opening(definition)[position].service == definition.same[position - same - after]);
    } else {
        let offset = position - same - after - same;
        assert(opening(definition)[position].service == definition.after[offset / 2]);
    }
}

/// Every message with which a lifecycle answers an event is about the
/// lifecycle's own service.
pub proof fn lemma_answers_are_about_own_service(
    definition: ServiceDefView,
    stage: Stage,
    event: EventView,
    position: int,
)
    requires
        0 <= position < stage.answer(definition, event).messages.len(),
    ensures
        stage.answer(definition, event).messages[position].service() == definition.name,
        stage.answer(definition, event).messages[position] is Started || stage.answer(
            definition,
            event,
        ).messages[position] is Finished,
{
}

} // verus!
