//! The control service: the endpoint under which rebind requests arrive, and
//! the life of the service from start to the loss of its transport.
//!
//! The service is a state machine. Whoever owns the bus connection feeds it
//! one event at a time and carries out the action that comes back.

use crate::handler::{rebind_step, OutcomeView, RebindHandler, RebindOutcome};
use crate::state::{MigrationState, MigrationView};
use vstd::prelude::*;

verus! {

/// The name under which the service is found on the bus.
pub const SERVICE_NAME: &'static str = "org.freedesktop.gst";

/// The one object path that the service registers.
pub const OBJECT_PATH: &'static str = "/quic";

/// The one interface registered under that path.
pub const INTERFACE_NAME: &'static str = "org.freedesktop.gst";

/// The operation that requests a migration: it takes an address and returns
/// a reply, both texts.
pub const REBIND_METHOD: &'static str = "Rebind";

/// The broadcast that follows an accepted request: it carries the address.
pub const REBIND_SIGNAL: &'static str = "RebindHappened";

/// The name of the address argument of the operation and of the broadcast.
pub const ADDRESS_ARGUMENT: &'static str = "addr";

/// The name of the reply argument of the operation.
pub const REPLY_ARGUMENT: &'static str = "reply";

/// Where the service is in its life.
#[derive(Clone, Copy, Debug, PartialEq, Eq, Structural)]
pub enum ServicePhase {
    /// The endpoint is being set up; no request is taken yet.
    Starting,
    /// Requests are taken and answered.
    Listening,
    /// The transport was lost. There is no way back.
    Terminated,
}

/// What happened on the bus.
#[derive(Clone, Debug, PartialEq, Eq)]
pub enum ServiceEvent {
    /// The name, the path and the interface are registered.
    Registered,
    /// A rebind request arrived with this address.
    Request { address: String },
    /// The connection to the bus is gone.
    TransportLost,
}

/// A `ServiceEvent` as plain values.
pub enum EventView {
    Registered,
    Request { address: Seq<char> },
    TransportLost,
}

impl View for ServiceEvent {
    type V = EventView;

    open spec fn view(&self) -> EventView {
        match self {
            ServiceEvent::Registered => EventView::Registered,
            ServiceEvent::Request { address } => EventView::Request { address: address@ },
            ServiceEvent::TransportLost => EventView::TransportLost,
        }
    }
}

/// What is to be done about an event.
#[derive(Clone, Debug, PartialEq, Eq)]
pub enum ServiceAction {
    /// Nothing: the event does not concern the service in its phase.
    Ignore,
    /// Start taking requests.
    Listen,
    /// Answer the request, which has been handled and published, as this
    /// outcome says.
    Answer { outcome: RebindOutcome },
    /// End the control plane abruptly.
    Abort,
}

/// A `ServiceAction` as plain values.
pub enum ServiceActionView {
    Ignore,
    Listen,
    Answer { outcome: OutcomeView },
    Abort,
}

impl View for ServiceAction {
    type V = ServiceActionView;

    open spec fn view(&self) -> ServiceActionView {
        match self {
            ServiceAction::Ignore => ServiceActionView::Ignore,
            ServiceAction::Listen => ServiceActionView::Listen,
            ServiceAction::Answer { outcome } => ServiceActionView::Answer { outcome: outcome@ },
            ServiceAction::Abort => ServiceActionView::Abort,
        }
    }
}

/// The service and the shared state after an event, and the action that the
/// event calls for.
pub struct ServiceStep {
    pub phase: ServicePhase,
    pub count: nat,
    pub shared: MigrationView,
    pub action: ServiceActionView,
}

/// What one event does. A service that is starting begins to listen once it
/// is registered; a listening service handles each request; the loss of the
/// transport ends the service in either phase; and an ended service takes
/// nothing more.
pub open spec fn service_step(
    phase: ServicePhase,
    count: nat,
    shared: MigrationView,
    event: EventView,
) -> ServiceStep {
    match (phase, event) {
        (ServicePhase::Starting, EventView::Registered) => ServiceStep {
            phase: ServicePhase::Listening,
            count,
            shared,
            action: ServiceActionView::Listen,
        },
        (ServicePhase::Listening, EventView::Request { address }) => ServiceStep {
            phase: ServicePhase::Listening,
            count: rebind_step(count, shared, address).count,
            shared: rebind_step(count, shared, address).shared,
            action: ServiceActionView::Answer {
                outcome: rebind_step(count, shared, address).outcome,
            },
        },
        (ServicePhase::Starting, EventView::TransportLost) => ServiceStep {
            phase: ServicePhase::Terminated,
            count,
            shared,
            action: ServiceActionView::Abort,
        },
        (ServicePhase::Listening, EventView::TransportLost) => ServiceStep {
            phase: ServicePhase::Terminated,
            count,
            shared,
            action: ServiceActionView::Abort,
        },
        _ => ServiceStep { phase, count, shared, action: ServiceActionView::Ignore },
    }
}

/// The service and the shared state after a run of events, fed in order.
pub open spec fn service_run(
    phase: ServicePhase,
    count: nat,
    shared: MigrationView,
    events: Seq<EventView>,
) -> ServiceStep
    decreases events.len(),
{
    if events.len() == 0 {
        ServiceStep { phase, count, shared, action: ServiceActionView::Ignore }
    } else {
        let before = service_run(phase, count, shared, events.drop_last());
        service_step(before.phase, before.count, before.shared, events.last())
    }
}

/// How far a phase is along the life of the service.
pub open spec fn phase_rank(phase: ServicePhase) -> nat {
    match phase {
        ServicePhase::Starting => 0,
        ServicePhase::Listening => 1,
        ServicePhase::Terminated => 2,
    }
}

/// The control service: its phase, and the handler with its invocation count.
#[derive(Debug)]
pub struct ControlService {
    phase: ServicePhase,
    handler: RebindHandler,
}

impl ControlService {
    /// The phase of the service.
    pub closed spec fn spec_phase(&self) -> ServicePhase {
        self.phase
    }

    /// The number of requests handled so far.
    pub closed spec fn count(&self) -> nat {
        self.handler.count()
    }

    /// A service that is starting and has handled no request.
    pub fn new() -> (service: ControlService)
        ensures
            service.spec_phase() == ServicePhase::Starting,
            service.count() == 0,
    {
        ControlService { phase: ServicePhase::Starting, handler: RebindHandler::new() }
    }

    /// The phase of the service.
    pub fn phase(&self) -> (phase: ServicePhase)
        ensures
            phase == self.spec_phase(),
    {
        self.phase
    }

    /// The number of requests handled so far.
    pub fn called_count(&self) -> (count: u32)
        ensures
            count as nat == self.count(),
    {
        self.handler.called_count()
    }

    /// Takes one event and says what is to be done about it.
    pub fn step(&mut self, shared: &mut MigrationState, event: ServiceEvent) -> (action:
        ServiceAction)
        requires
            old(self).spec_phase() == ServicePhase::Listening && event@ is Request ==> old(
                self,
            ).count() < u32::MAX && old(shared)@.migration_epoch < u64::MAX,
        ensures
            final(self).spec_phase() == service_step(
                old(self).spec_phase(),
                old(self).count(),
                old(shared)@,
                event@,
            ).phase,
            final(self).count() == service_step(
                old(self).spec_phase(),
                old(self).count(),
                old(shared)@,
                event@,
            ).count,
            final(shared)@ == service_step(
                old(self).spec_phase(),
                old(self).count(),
                old(shared)@,
                event@,
            ).shared,
            action@ == service_step(
                old(self).spec_phase(),
                old(self).count(),
                old(shared)@,
                event@,
            ).action,
    {
        match self.phase {
            ServicePhase::Starting => match event {
                ServiceEvent::Registered => {
                    self.phase = ServicePhase::Listening;
                    ServiceAction::Listen
                },
                ServiceEvent::TransportLost => {
                    self.phase = ServicePhase::Terminated;
                    ServiceAction::Abort
                },
                ServiceEvent::Request { .. } => ServiceAction::Ignore,
            },
            ServicePhase::Listening => match event {
                ServiceEvent::Request { address } => {
                    let outcome = self.handler.rebind(shared, address.as_str());
                    ServiceAction::Answer { outcome }
                },
                ServiceEvent::TransportLost => {
                    self.phase = ServicePhase::Terminated;
                    ServiceAction::Abort
                },
                ServiceEvent::Registered => ServiceAction::Ignore,
            },
            ServicePhase::Terminated => ServiceAction::Ignore,
        }
    }
}

/// The service never goes back: after any event its phase is the same or a
/// later one.
pub proof fn lemma_phase_never_goes_back(
    phase: ServicePhase,
    count: nat,
    shared: MigrationView,
    event: EventView,
)
    ensures
        phase_rank(service_step(phase, count, shared, event).phase) >= phase_rank(phase),
{
}

/// A service that has ended takes nothing more: whatever the events, it
/// stays ended, and neither the count nor the shared state changes.
pub proof fn lemma_terminated_is_final(count: nat, shared: MigrationView, events: Seq<EventView>)
    ensures
        service_run(ServicePhase::Terminated, count, shared, events).phase
            == ServicePhase::Terminated,
        service_run(ServicePhase::Terminated, count, shared, events).count == count,
        service_run(ServicePhase::Terminated, count, shared, events).shared == shared,
        service_run(ServicePhase::Terminated, count, shared, events).action
            == ServiceActionView::Ignore,
    decreases events.len(),
{
    if events.len() > 0 {
        lemma_terminated_is_final(count, shared, events.drop_last());
    }
}

/// A request is answered exactly where the service is listening, and only an
/// answered request touches the count or the shared state.
pub proof fn lemma_requests_need_a_listener(
    phase: ServicePhase,
    count: nat,
    shared: MigrationView,
    event: EventView,
)
    ensures
        service_step(phase, count, shared, event).action is Answer <==> phase
            == ServicePhase::Listening && event is Request,
        !(service_step(phase, count, shared, event).action is Answer) ==> service_step(
            phase,
            count,
            shared,
            event,
        ).count == count && service_step(phase, count, shared, event).shared == shared,
        service_step(phase, count, shared, event).action is Abort <==> phase
            != ServicePhase::Terminated && event is TransportLost,
{
}

} // verus!
