use crate::channel::{notify_all, Waiter};
use crate::definition::{defined, names_distinct, valid, ServiceDef, ServiceDefView};
use vstd::prelude::*;

verus! {

/// What travels on the orchestrator's inbound queue.
pub enum Message {
    /// Registers `sender` to be notified once `service` has reported failure.
    FailOn { service: String, sender: Waiter },
    /// Registers `sender` to be notified once `service` has started.
    DependOn { service: String, sender: Waiter },
    /// Asks for `service` to be started, unless it already was.
    Start { service: String },
    /// Reports how the start command of `service` ended.
    Started { service: String, result: Result<(), std::io::Error> },
    /// Reports how the run command of `service` ended, or that the service
    /// was given up because something it depends on failed.
    Finished { service: String, result: Result<(), std::io::Error> },
}

/// The mathematical value of a [`Message`]. Of a result only success or
/// failure is kept: the protocol looks at nothing else.
pub enum MessageView {
    FailOn { service: Seq<char>, sender: Waiter },
    DependOn { service: Seq<char>, sender: Waiter },
    Start { service: Seq<char> },
    Started { service: Seq<char>, ok: bool },
    Finished { service: Seq<char>, ok: bool },
}

/// The five kinds of message.
#[derive(Clone, Copy, Debug, PartialEq, Eq, Structural)]
pub enum Kind {
    FailOn,
    DependOn,
    Start,
    Started,
    Finished,
}

/// What a message says apart from the waiter or the result it carries: its
/// kind and the service it is about.
pub struct Heading {
    pub kind: Kind,
    pub service: Seq<char>,
}

/// The headings of a sequence of messages, in order.
pub open spec fn headings(messages: Seq<Message>) -> Seq<Heading> {
    messages.map_values(|message: Message| message@.heading())
}

impl MessageView {
    /// The kind of the message.
    pub open spec fn kind(self) -> Kind {
        match self {
            MessageView::FailOn { .. } => Kind::FailOn,
            MessageView::DependOn { .. } => Kind::DependOn,
            MessageView::Start { .. } => Kind::Start,
            MessageView::Started { .. } => Kind::Started,
            MessageView::Finished { .. } => Kind::Finished,
        }
    }

    /// The kind of the message and the service it is about.
    pub open spec fn heading(self) -> Heading {
        Heading { kind: self.kind(), service: self.service() }
    }

    /// The service that the message is about.
    pub open spec fn service(self) -> Seq<char> {
        match self {
            MessageView::FailOn { service, .. } => service,
            MessageView::DependOn { service, .. } => service,
            MessageView::Start { service } => service,
            MessageView::Started { service, .. } => service,
            MessageView::Finished { service, .. } => service,
        }
    }

    /// The waiters that the message hands over to the orchestrator.
    pub open spec fn registers(self) -> Seq<Waiter> {
        match self {
            MessageView::FailOn { sender, .. } => seq![sender],
            MessageView::DependOn { sender, .. } => seq![sender],
            _ => Seq::empty(),
        }
    }
}

impl View for Message {
    type V = MessageView;

    open spec fn view(&self) -> MessageView {
        match *self {
            Message::FailOn { service, sender } => MessageView::FailOn {
                service: service@,
                sender,
            },
            Message::DependOn { service, sender } => MessageView::DependOn {
                service: service@,
                sender,
            },
            Message::Start { service } => MessageView::Start { service: service@ },
            Message::Started { service, result } => MessageView::Started {
                service: service@,
                ok: result is Ok,
            },
            Message::Finished { service, result } => MessageView::Finished {
                service: service@,
                ok: result is Ok,
            },
        }
    }
}

impl Message {
    /// The name of the service that the message is about.
    pub fn service(&self) -> (name: &String)
        ensures
            name@ == self@.service(),
    {
        match self {
            Message::FailOn { service, .. } => service,
            Message::DependOn { service, .. } => service,
            Message::Start { service } => service,
            Message::Started { service, .. } => service,
            Message::Finished { service, .. } => service,
        }
    }
}

/// How far a service has come, as the orchestrator has learnt it from the
/// messages it has handled.
#[derive(Clone, Copy, Debug, PartialEq, Eq, Structural)]
pub enum Phase {
    /// No `Start` has been accepted yet.
    Unstarted,
    /// A `Start` was accepted; the outcome of the start command is not known.
    Starting,
    /// The start command failed. Final.
    StartFailed,
    /// The start command succeeded; the outcome of the run command is not
    /// known.
    Running,
    /// The run command succeeded. Final.
    RunSucceeded,
    /// Failure was reported after the service had started. Final.
    RunFailed,
    /// Failure was reported before the service had started: something it
    /// depends on failed. Final.
    Abandoned,
}

impl Phase {
    /// A `Start` has been accepted.
    pub open spec fn started(self) -> bool {
        !(self is Unstarted)
    }

    /// The outcome of the start is still open.
    pub open spec fn start_open(self) -> bool {
        self is Unstarted || self is Starting
    }

    /// The start command has succeeded.
    pub open spec fn start_succeeded(self) -> bool {
        self is Running || self is RunSucceeded || self is RunFailed
    }

    /// The start command will never succeed.
    pub open spec fn start_ruled_out(self) -> bool {
        self is StartFailed || self is Abandoned
    }

    /// Failure has been reported through `Finished`.
    pub open spec fn failed(self) -> bool {
        self is RunFailed || self is Abandoned
    }

    /// No message changes the phase any more.
    pub open spec fn is_final(self) -> bool {
        self is StartFailed || self is RunSucceeded || self is RunFailed || self is Abandoned
    }

    /// The phase after `message` has been handled.
    pub open spec fn after(self, message: MessageView) -> Phase {
        match message {
            MessageView::Start { .. } => if self is Unstarted {
                Phase::Starting
            } else {
                self
            },
            MessageView::Started { ok, .. } => if self is Starting {
                if ok {
                    Phase::Running
                } else {
                    Phase::StartFailed
                }
            } else {
                self
            },
            MessageView::Finished { ok, .. } => if self is Running {
                if ok {
                    Phase::RunSucceeded
                } else {
                    Phase::RunFailed
                }
            } else if self is Starting && !ok {
                Phase::Abandoned
            } else {
                self
            },
            _ => self,
        }
    }
}

/// What the caller of the orchestrator has to drive after a message was
/// handled.
pub enum Continuation {
    /// Nothing: the message was dealt with in full.
    Ready,
    /// The lifecycle of the service with this definition.
    Lifecycle(ServiceDef),
}

impl View for Continuation {
    type V = Option<ServiceDefView>;

    open spec fn view(&self) -> Option<ServiceDefView> {
        match *self {
            Continuation::Ready => None,
            Continuation::Lifecycle(definition) => Some(definition@),
        }
    }
}

/// What handling one message asks of the outside world.
pub struct Effects {
    /// The lifecycle to drive, if a service was told to start.
    pub continuation: Continuation,
    /// The waiters to notify, in the order in which they registered.
    pub fire: Vec<Waiter>,
    /// The waiters to drop without notifying them: their event can no longer
    /// happen.
    pub cancel: Vec<Waiter>,
}

/// The mathematical value of [`Effects`].
#[verifier::ext_equal]
pub struct EffectsView {
    pub spawn: Option<ServiceDefView>,
    pub fire: Seq<Waiter>,
    pub cancel: Seq<Waiter>,
}

impl View for Effects {
    type V = EffectsView;

    open spec fn view(&self) -> EffectsView {
        EffectsView { spawn: self.continuation@, fire: self.fire@, cancel: self.cancel@ }
    }
}

/// The orchestrator's record of one service.
pub struct ServiceState {
    pub definition: ServiceDef,
    pub phase: Phase,
    /// Waiters to notify once the start command has succeeded.
    pub once_started: Vec<Waiter>,
    /// Waiters to notify once failure has been reported.
    pub once_failed: Vec<Waiter>,
}

/// The mathematical value of a [`ServiceState`].
#[verifier::ext_equal]
pub struct ServiceStateView {
    pub definition: ServiceDefView,
    pub phase: Phase,
    pub once_started: Seq<Waiter>,
    pub once_failed: Seq<Waiter>,
}

impl View for ServiceState {
    type V = ServiceStateView;

    open spec fn view(&self) -> ServiceStateView {
        ServiceStateView {
            definition: self.definition@,
            phase: self.phase,
            once_started: self.once_started@,
            once_failed: self.once_failed@,
        }
    }
}

impl ServiceStateView {
    /// The record of a service that nothing has happened to yet.
    pub open spec fn fresh(definition: ServiceDefView) -> ServiceStateView {
        ServiceStateView {
            definition,
            phase: Phase::Unstarted,
            once_started: Seq::empty(),
            once_failed: Seq::empty(),
        }
    }

    /// No waiter is kept for an event that has happened or can no longer
    /// happen: waiters for the start remain only while the start is still
    /// open, waiters for failure only while no failure was reported.
    pub open spec fn wf(self) -> bool {
        &&& self.once_started.len() > 0 ==> self.phase.start_open()
        &&& self.once_failed.len() > 0 ==> !self.phase.failed()
    }

    /// `message` settles the start: it reports the outcome of the start
    /// command, or failure before there was one.
    pub open spec fn settles_start(self, message: MessageView) -> bool {
        self.phase is Starting && match message {
            MessageView::Started { .. } => true,
            MessageView::Finished { ok, .. } => !ok,
            _ => false,
        }
    }

    /// `message` reports a failure that is taken note of.
    pub open spec fn settles_failure(self, message: MessageView) -> bool {
        match message {
            MessageView::Finished { ok, .. } => !ok && (self.phase is Starting
                || self.phase is Running),
            _ => false,
        }
    }

    /// The record after `message` has been handled.
    pub open spec fn after(self, message: MessageView) -> ServiceStateView {
        ServiceStateView {
            definition: self.definition,
            phase: self.phase.after(message),
            once_started: match message {
                MessageView::DependOn { sender, .. } => if self.phase.start_open() {
                    self.once_started.push(sender)
                } else {
                    self.once_started
                },
                _ => if self.settles_start(message) {
                    Seq::empty()
                } else {
                    self.once_started
                },
            },
            once_failed: match message {
                MessageView::FailOn { sender, .. } => if self.phase.failed() {
                    self.once_failed
                } else {
                    self.once_failed.push(sender)
                },
                _ => if self.settles_failure(message) {
                    Seq::empty()
                } else {
                    self.once_failed
                },
            },
        }
    }

    /// What handling `message` asks of the outside world.
    pub open spec fn effects(self, message: MessageView) -> EffectsView {
        EffectsView {
            spawn: if message is Start && self.phase is Unstarted {
                Some(self.definition)
            } else {
                None
            },
            fire: match message {
                MessageView::DependOn { sender, .. } => if self.phase.start_succeeded() {
                    seq![sender]
                } else {
                    Seq::empty()
                },
                MessageView::FailOn { sender, .. } => if self.phase.failed() {
                    seq![sender]
                } else {
                    Seq::empty()
                },
                MessageView::Started { ok, .. } => if self.phase is Starting && ok {
                    self.once_started
                } else {
                    Seq::empty()
                },
                MessageView::Finished { .. } => if self.settles_failure(message) {
                    self.once_failed
                } else {
                    Seq::empty()
                },
                MessageView::Start { .. } => Seq::empty(),
            },
            cancel: match message {
                MessageView::DependOn { sender, .. } => if self.phase.start_ruled_out() {
                    seq![sender]
                } else {
                    Seq::empty()
                },
                MessageView::Started { ok, .. } => if self.phase is Starting && !ok {
                    self.once_started
                } else {
                    Seq::empty()
                },
                MessageView::Finished { ok, .. } => if self.phase is Starting && !ok {
                    self.once_started
                } else {
                    Seq::empty()
                },
                _ => Seq::empty(),
            },
        }
    }
}

impl ServiceState {
    /// The record of a service that nothing has happened to yet.
    pub fn new(definition: ServiceDef) -> (state: Self)
        ensures
            state@ == ServiceStateView::fresh(definition@),
    {
        Self {
            definition,
            phase: Phase::Unstarted,
            once_started: Vec::new(),
            once_failed: Vec::new(),
        }
    }

    /// Whether a `Start` has been accepted for this service.
    pub fn started(&self) -> (yes: bool)
        ensures
            yes == self.phase.started(),
    {
        match self.phase {
            Phase::Unstarted => false,
            _ => true,
        }
    }

    /// Handles one message about this service: moves the record on and says
    /// what is to be done outside. A well-formed record stays well-formed.
    pub fn apply(&mut self, message: Message) -> (effects: Effects)
        ensures
            final(self)@ == old(self)@.after(message@),
            effects@ == old(self)@.effects(message@),
            old(self)@.wf() ==> final(self)@.wf(),
    {
        let mut continuation = Continuation::Ready;
        let mut fire: Vec<Waiter> = Vec::new();
        let mut cancel: Vec<Waiter> = Vec::new();
        match message {
            Message::Start { service: _ } => {
                if let Phase::Unstarted = self.phase {
                    self.phase = Phase::Starting;
                    continuation = Continuation::Lifecycle(self.definition.clone());
                }
            },
            Message::Started { service: _, result } => {
                if let Phase::Starting = self.phase {
                    if result.is_ok() {
                        self.phase = Phase::Running;
                        std::mem::swap(&mut self.once_started, &mut fire);
                    } else {
                        self.phase = Phase::StartFailed;
                        std::mem::swap(&mut self.once_started, &mut cancel);
                    }
                }
            },
            Message::Finished { service: _, result } => {
                match self.phase {
                    Phase::Running => {
                        if result.is_ok() {
                            self.phase = Phase::RunSucceeded;
                        } else {
                            self.phase = Phase::RunFailed;
                            std::mem::swap(&mut self.once_failed, &mut fire);
                        }
                    },
                    Phase::Starting => {
                        if result.is_err() {
                            self.phase = Phase::Abandoned;
                            std::mem::swap(&mut self.once_failed, &mut fire);
                            std::mem::swap(&mut self.once_started, &mut cancel);
                        }
                    },
                    _ => {},
                }
            },
            Message::DependOn { service: _, sender } => {
                match self.phase {
                    Phase::Unstarted | Phase::Starting => {
                        self.once_started.push(sender);
                    },
                    Phase::Running | Phase::RunSucceeded | Phase::RunFailed => {
                        fire.push(sender);
                    },
                    Phase::StartFailed | Phase::Abandoned => {
                        cancel.push(sender);
                    },
                }
            },
            Message::FailOn { service: _, sender } => {
                match self.phase {
                    Phase::RunFailed | Phase::Abandoned => {
                        fire.push(sender);
                    },
                    _ => {
                        self.once_failed.push(sender);
                    },
                }
            },
        }
        let effects = Effects { continuation, fire, cancel };
        assert(self@ =~= old(self)@.after(message@));
        assert(effects@ =~= old(self)@.effects(message@));
        effects
    }
}

/// The definitions that a sequence of records is about.
pub open spec fn definitions_of(records: Seq<ServiceStateView>) -> Seq<ServiceDefView> {
    records.map_values(|record: ServiceStateView| record.definition)
}

/// The records of a sequence, each under the name of its service. Meant for
/// sequences in which no name occurs twice.
pub open spec fn by_name(records: Seq<ServiceStateView>) -> Map<Seq<char>, ServiceStateView> {
    Map::new(
        |name: Seq<char>| defined(definitions_of(records), name),
        |name: Seq<char>|
            records[choose|i: int|
                0 <= i < records.len() && (#[trigger] definitions_of(records)[i]).name == name],
    )
}

/// In a sequence without repeated names, the record found under a name is
/// the one that bears it.
pub proof fn lemma_by_name_index(records: Seq<ServiceStateView>, i: int)
    requires
        names_distinct(definitions_of(records)),
        0 <= i < records.len(),
    ensures
        by_name(records).dom().contains(records[i].definition.name),
        by_name(records)[records[i].definition.name] == records[i],
{
    let definitions = definitions_of(records);
    let name = records[i].definition.name;
    assert(definitions[i].name == name);
    let j = choose|j: int| 0 <= j < records.len() && (#[trigger] definitions[j]).name == name;
    assert(definitions[j].name == definitions[i].name);
    assert(i == j);
}

/// Replacing one record by another of the same service replaces what is
/// found under that service's name, and nothing else.
pub proof fn lemma_by_name_update(records: Seq<ServiceStateView>, i: int, record: ServiceStateView)
    requires
        names_distinct(definitions_of(records)),
        0 <= i < records.len(),
        record.definition == records[i].definition,
    ensures
        definitions_of(records.update(i, record)) == definitions_of(records),
        by_name(records.update(i, record)) == by_name(records).insert(
            record.definition.name,
            record,
        ),
{
    let updated = records.update(i, record);
    assert(definitions_of(updated) =~= definitions_of(records));
    lemma_by_name_index(updated, i);
    assert forall|name: Seq<char>| #[trigger]
        by_name(records).dom().contains(name) && name != record.definition.name implies by_name(
        updated,
    )[name] == by_name(records)[name] by {
        let definitions = definitions_of(records);
        let j = choose|j: int| 0 <= j < records.len() && (#[trigger] definitions[j]).name == name;
        assert(j != i);
        assert(updated[j] == records[j]);
    }
    assert(by_name(updated) =~= by_name(records).insert(record.definition.name, record));
}

/// The records after `message` has been handled: the record of the service
/// that the message is about has moved on, every other record is as it was.
pub open spec fn delivered(
    records: Map<Seq<char>, ServiceStateView>,
    message: MessageView,
) -> Map<Seq<char>, ServiceStateView> {
    records.insert(message.service(), records[message.service()].after(message))
}

/// The sole owner of the services' records. Every change to a record goes
/// through [`Orchestrator::dispatch`], one message at a time.
pub struct Orchestrator {
    /// The sending half of the inbound queue; clone it for every party that
    /// is to send messages.
    pub sender: futures::channel::mpsc::Sender<Message>,
    /// The receiving half of the inbound queue.
    pub receiver: futures::channel::mpsc::Receiver<Message>,
    services: Vec<ServiceState>,
}

impl Orchestrator {
    /// The records in the order in which the services were defined.
    pub closed spec fn records(&self) -> Seq<ServiceStateView> {
        self.services@.map_values(|state: ServiceState| state@)
    }

    /// The definitions that the orchestrator was made with.
    pub open spec fn definitions(&self) -> Seq<ServiceDefView> {
        definitions_of(self.records())
    }

    /// The definitions are valid, and every record is well-formed.
    pub open spec fn wf(&self) -> bool {
        &&& valid(self.definitions())
        &&& forall|i: int| 0 <= i < self.records().len() ==> (#[trigger] self.records()[i]).wf()
    }
}

impl View for Orchestrator {
    type V = Map<Seq<char>, ServiceStateView>;

    /// The record of every service, under the service's name.
    open spec fn view(&self) -> Map<Seq<char>, ServiceStateView> {
        by_name(self.records())
    }
}

impl Orchestrator {
    /// An orchestrator for the given services, none of them started, with a
    /// fresh inbound queue.
    pub fn new(definitions: Vec<ServiceDef>) -> (orchestrator: Self)
        requires
            valid(definitions.deep_view()),
        ensures
            orchestrator.wf(),
            orchestrator.definitions() == definitions.deep_view(),
            orchestrator.records() == definitions.deep_view().map_values(
                |definition: ServiceDefView| ServiceStateView::fresh(definition),
            ),
    {
        let (sender, receiver) = futures::channel::mpsc::channel::<Message>(100);
        let mut services: Vec<ServiceState> = Vec::new();
        let mut i: usize = 0;
        while i < definitions.len()
            invariant
                i <= definitions@.len(),
                services@.len() == i,
                forall|j: int|
                    0 <= j < i ==> (#[trigger] services@[j])@ == ServiceStateView::fresh(
                        definitions@[j]@,
                    ),
            decreases definitions@.len() - i,
        {
            services.push(ServiceState::new(definitions[i].clone()));
            i = i + 1;
        }
        let orchestrator = Orchestrator { sender, receiver, services };
        proof {
            assert(orchestrator.records() =~= definitions.deep_view().map_values(
                |definition: ServiceDefView| ServiceStateView::fresh(definition),
            ));
            assert(orchestrator.definitions() =~= definitions.deep_view());
        }
        orchestrator
    }

    /// Where the record of the service called `name` stands, if there is one.
    fn position(&self, name: &String) -> (found: Option<usize>)
        ensures
            match found {
                Some(i) => i < self.records().len() && self.records()[i as int].definition.name
                    == name@,
                None => !defined(self.definitions(), name@),
            },
    {
        let mut i: usize = 0;
        while i < self.services.len()
            invariant
                i <= self.services@.len(),
                forall|j: int| 0 <= j < i
                    ==> (#[trigger] self.records()[j]).definition.name != name@,
            decreases self.services@.len() - i,
        {
            if self.services[i].definition.name == *name {
                return Some(i);
            }
            i = i + 1;
        }
        assert forall|j: int| 0 <= j < self.definitions().len() implies (
        #[trigger] self.definitions()[j]).name != name@ by {
            assert(self.records()[j].definition.name != name@);
        }
        None
    }

    /// Whether the orchestrator has a service called `name`.
    pub fn knows(&self, name: &String) -> (known: bool)
        ensures
            known == self@.dom().contains(name@),
    {
        let found = self.position(name);
        proof {
            if let Some(i) = found {
                assert(self.definitions()[i as int].name == name@);
            }
        }
        found.is_some()
    }

    /// The record of the service called `name`.
    pub fn state(&self, name: &String) -> (state: Option<&ServiceState>)
        requires
            self.wf(),
        ensures
            match state {
                Some(state) => self@.dom().contains(name@) && state@ == self@[name@],
                None => !self@.dom().contains(name@),
            },
    {
        match self.position(name) {
            Some(i) => {
                proof {
                    lemma_by_name_index(self.records(), i as int);
                }
                Some(&self.services[i])
            },
            None => None,
        }
    }

    /// Handles one message: moves the record of the service that the message
    /// is about, and says what is to be done outside. No other record changes.
    pub fn dispatch(&mut self, message: Message) -> (effects: Effects)
        requires
            old(self).wf(),
            old(self)@.dom().contains(message@.service()),
        ensures
            final(self).wf(),
            final(self).definitions() == old(self).definitions(),
            final(self)@ == delivered(old(self)@, message@),
            effects@ == old(self)@[message@.service()].effects(message@),
    {
        let found = self.position(message.service());
        let i = found.unwrap();
        let ghost before = self.records();
        proof {
            lemma_by_name_index(before, i as int);
        }
        let effects = self.services[i].apply(message);
        proof {
            let record = before[i as int].after(message@);
            assert(self.records() =~= before.update(i as int, record));
            lemma_by_name_update(before, i as int, record);
            lemma_after_preserves_wf(before[i as int], message@);
        }
        effects
    }

    /// Handles one message as [`Orchestrator::dispatch`] does, then notifies
    /// the waiters that are due and drops those whose event can no longer
    /// happen. Returns what is left to drive.
    pub fn receive(&mut self, message: Message) -> (continuation: Continuation)
        requires
            old(self).wf(),
            old(self)@.dom().contains(message@.service()),
        ensures
            final(self).wf(),
            final(self).definitions() == old(self).definitions(),
            final(self)@ == delivered(old(self)@, message@),
            continuation@ == old(self)@[message@.service()].effects(message@).spawn,
    {
        let Effects { continuation, fire, cancel: _ } = self.dispatch(message);
        notify_all(fire);
        continuation
    }
}

/// Handling a message keeps a record well-formed.
pub proof fn lemma_after_preserves_wf(record: ServiceStateView, message: MessageView)
    requires
        record.wf(),
    ensures
        record.after(message).wf(),
{
}

} // verus!
