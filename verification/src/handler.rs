//! The rebind request handler: what one request does to the invocation count
//! and to the shared state, and the plan of actions that answers it.
//!
//! The handler decides; it does not wait, send or broadcast. Whoever owns the
//! bus connection and the clock carries the actions out, in the order of the
//! plan.

use crate::address::{make_socket_addr, parse_address, Endpoint, InvalidAddress};
use crate::reply::{
    lemma_success_text_names_count, rejection_reply, rejection_text, success_reply, success_text,
};
use crate::state::{after_updates, MigrationState, MigrationView};
use vstd::prelude::*;
use vstd::string::StringExecFns;

verus! {

/// The settling delay in milliseconds: the wait between the publication of a
/// request and its notification.
pub const SETTLING_MILLIS: u64 = 500;

/// One thing to do in answer to a request.
#[derive(Clone, Debug, PartialEq, Eq)]
pub enum ControlAction {
    /// Wait for the given number of milliseconds.
    Settle { millis: u64 },
    /// Broadcast that a migration to the given address has happened.
    Notify { address: String },
    /// Send the given text back to the caller.
    Reply { text: String },
}

/// A `ControlAction` as plain values.
pub enum ActionView {
    Settle { millis: u64 },
    Notify { address: Seq<char> },
    Reply { text: Seq<char> },
}

impl View for ControlAction {
    type V = ActionView;

    open spec fn view(&self) -> ActionView {
        match self {
            ControlAction::Settle { millis } => ActionView::Settle { millis: *millis },
            ControlAction::Notify { address } => ActionView::Notify { address: address@ },
            ControlAction::Reply { text } => ActionView::Reply { text: text@ },
        }
    }
}

/// How a request ended.
#[derive(Clone, Debug, PartialEq, Eq)]
pub enum RebindOutcome {
    /// The address is valid: the endpoint it names, the address as it was
    /// requested, and the reply.
    Accepted { endpoint: Endpoint, address: String, reply: String },
    /// The address is invalid: the reason, and the reply that names it.
    Rejected { error: InvalidAddress, reply: String },
}

/// A `RebindOutcome` as plain values.
pub enum OutcomeView {
    Accepted { endpoint: Endpoint, address: Seq<char>, reply: Seq<char> },
    Rejected { error: InvalidAddress, reply: Seq<char> },
}

impl View for RebindOutcome {
    type V = OutcomeView;

    open spec fn view(&self) -> OutcomeView {
        match self {
            RebindOutcome::Accepted { endpoint, address, reply } => OutcomeView::Accepted {
                endpoint: *endpoint,
                address: address@,
                reply: reply@,
            },
            RebindOutcome::Rejected { error, reply } => OutcomeView::Rejected {
                error: *error,
                reply: reply@,
            },
        }
    }
}

impl OutcomeView {
    /// The actions that answer the request, in order. An accepted request is
    /// settled, notified and then answered; a rejected one is only answered.
    pub open spec fn plan(self) -> Seq<ActionView> {
        match self {
            OutcomeView::Accepted { endpoint, address, reply } => seq![
                ActionView::Settle { millis: SETTLING_MILLIS },
                ActionView::Notify { address },
                ActionView::Reply { text: reply },
            ],
            OutcomeView::Rejected { error, reply } => seq![ActionView::Reply { text: reply }],
        }
    }

    /// The text that goes back to the caller.
    pub open spec fn reply_text(self) -> Seq<char> {
        match self {
            OutcomeView::Accepted { endpoint, address, reply } => reply,
            OutcomeView::Rejected { error, reply } => reply,
        }
    }
}

/// How many notifications a plan holds.
pub open spec fn notifications_in(plan: Seq<ActionView>) -> nat
    decreases plan.len(),
{
    if plan.len() == 0 {
        0
    } else {
        notifications_in(plan.drop_last()) + if plan.last() is Notify {
            1nat
        } else {
            0nat
        }
    }
}

/// How the request that brings the invocation count to `count` ends.
pub open spec fn outcome_of(count: nat, address: Seq<char>) -> OutcomeView {
    match parse_address(address) {
        Ok(endpoint) => OutcomeView::Accepted { endpoint, address, reply: success_text(count) },
        Err(error) => OutcomeView::Rejected { error, reply: rejection_text(error) },
    }
}

/// The invocation count, the shared state and the outcome after one request.
pub struct HandlerStep {
    pub count: nat,
    pub shared: MigrationView,
    pub outcome: OutcomeView,
}

/// What one request does. The count advances and the raw address is
/// published whether or not the address is valid; only the outcome depends on
/// the validation.
pub open spec fn rebind_step(count: nat, shared: MigrationView, address: Seq<char>) -> HandlerStep {
    HandlerStep {
        count: count + 1,
        shared: shared.updated(address),
        outcome: outcome_of(count + 1, address),
    }
}

/// The handler of rebind requests, with its invocation count.
#[derive(Debug)]
pub struct RebindHandler {
    called_count: u32,
}

impl RebindHandler {
    /// The number of requests handled so far.
    pub closed spec fn count(&self) -> nat {
        self.called_count as nat
    }

    /// A handler that has seen no request.
    pub fn new() -> (handler: RebindHandler)
        ensures
            handler.count() == 0,
    {
        RebindHandler { called_count: 0 }
    }

    /// The number of requests handled so far.
    pub fn called_count(&self) -> (count: u32)
        ensures
            count as nat == self.count(),
    {
        self.called_count
    }

    /// Handles one request. It counts the invocation, publishes the raw
    /// address into the shared state, and only then validates the address to
    /// decide how the request is answered.
    pub fn rebind(&mut self, shared: &mut MigrationState, address: &str) -> (outcome:
        RebindOutcome)
        requires
            old(self).count() < u32::MAX,
            old(shared)@.migration_epoch < u64::MAX,
        ensures
            final(self).count() == rebind_step(old(self).count(), old(shared)@, address@).count,
            final(shared)@ == rebind_step(old(self).count(), old(shared)@, address@).shared,
            outcome@ == rebind_step(old(self).count(), old(shared)@, address@).outcome,
    {
        self.called_count = self.called_count + 1;
        shared.update(String::from_str(address));
        match make_socket_addr(address) {
            Ok(endpoint) => RebindOutcome::Accepted {
                endpoint,
                address: String::from_str(address),
                reply: success_reply(self.called_count),
            },
            Err(error) => RebindOutcome::Rejected { error, reply: rejection_reply(error) },
        }
    }
}

impl RebindOutcome {
    /// Whether the address was valid.
    pub fn is_accepted(&self) -> (accepted: bool)
        ensures
            accepted == (self@ is Accepted),
    {
        match self {
            RebindOutcome::Accepted { .. } => true,
            RebindOutcome::Rejected { .. } => false,
        }
    }

    /// The text that goes back to the caller.
    pub fn reply(&self) -> (text: &str)
        ensures
            text@ == self@.reply_text(),
    {
        match self {
            RebindOutcome::Accepted { reply, .. } => reply.as_str(),
            RebindOutcome::Rejected { reply, .. } => reply.as_str(),
        }
    }
}

/// A request with a valid address is settled for the fixed delay, then
/// notified exactly once with the address as requested, then answered with
/// the success text that holds the new invocation count.
pub proof fn lemma_valid_request_notifies_once(
    count: nat,
    shared: MigrationView,
    address: Seq<char>,
)
    requires
        parse_address(address) is Ok,
    ensures
        rebind_step(count, shared, address).outcome is Accepted,
        rebind_step(count, shared, address).outcome.plan() == seq![
            ActionView::Settle { millis: SETTLING_MILLIS },
            ActionView::Notify { address },
            ActionView::Reply { text: success_text(count + 1) },
        ],
        notifications_in(rebind_step(count, shared, address).outcome.plan()) == 1,
        rebind_step(count, shared, address).outcome.reply_text() == success_text(count + 1),
{
    lemma_count_notifications(rebind_step(count, shared, address).outcome);
}

/// A request with an invalid address is answered with the text that names
/// the reason, and nothing else happens: no wait and no notification.
pub proof fn lemma_invalid_request_is_silent(
    count: nat,
    shared: MigrationView,
    address: Seq<char>,
)
    requires
        parse_address(address) is Err,
    ensures
        rebind_step(count, shared, address).outcome is Rejected,
        rebind_step(count, shared, address).outcome.plan() == seq![
            ActionView::Reply { text: rejection_text(parse_address(address)->Err_0) },
        ],
        notifications_in(rebind_step(count, shared, address).outcome.plan()) == 0,
        rebind_step(count, shared, address).outcome.reply_text() == rejection_text(
            parse_address(address)->Err_0,
        ),
{
    lemma_count_notifications(rebind_step(count, shared, address).outcome);
}

/// One more action adds one to the number of notifications where it is a
/// notification, and nothing where it is not.
pub proof fn lemma_count_pushed(plan: Seq<ActionView>, action: ActionView)
    ensures
        notifications_in(plan.push(action)) == notifications_in(plan) + if action is Notify {
            1nat
        } else {
            0nat
        },
{
    assert(plan.push(action).drop_last() =~= plan);
}

/// The number of notifications in the plan of an outcome: one where the
/// request was accepted, none where it was rejected.
pub proof fn lemma_count_notifications(outcome: OutcomeView)
    ensures
        notifications_in(outcome.plan()) == if outcome is Accepted {
            1nat
        } else {
            0nat
        },
{
    let none = Seq::<ActionView>::empty();
    let plan = outcome.plan();
    lemma_count_pushed(none, plan[0]);
    if outcome is Accepted {
        lemma_count_pushed(none.push(plan[0]), plan[1]);
        lemma_count_pushed(none.push(plan[0]).push(plan[1]), plan[2]);
        assert(plan =~= none.push(plan[0]).push(plan[1]).push(plan[2]));
    } else {
        assert(plan =~= none.push(plan[0]));
    }
}

/// The invocation count advances by one with every request, whether its
/// address is valid or not.
pub proof fn lemma_count_advances(
    count: nat,
    shared: MigrationView,
    first: Seq<char>,
    second: Seq<char>,
)
    ensures
        rebind_step(count, shared, first).count == count + 1,
        rebind_step(
            rebind_step(count, shared, first).count,
            rebind_step(count, shared, first).shared,
            second,
        ).count == rebind_step(count, shared, first).count + 1,
{
}

/// The shared state after a request holds the raw address of that request,
/// valid or not, and an epoch one above the one before.
pub proof fn lemma_request_is_published(count: nat, shared: MigrationView, address: Seq<char>)
    ensures
        rebind_step(count, shared, address).shared.next_target == address,
        rebind_step(count, shared, address).shared.migration_epoch == shared.migration_epoch + 1,
        rebind_step(count, shared, address).shared.pending(),
{
}

/// In every plan a notification stands directly behind the wait for the
/// settling delay: none is planned before that wait.
pub proof fn lemma_notification_follows_settling(outcome: OutcomeView, i: int)
    requires
        0 <= i < outcome.plan().len(),
        outcome.plan()[i] is Notify,
    ensures
        i > 0,
        outcome.plan()[i - 1] == (ActionView::Settle { millis: SETTLING_MILLIS }),
{
}

/// Every plan ends with the reply, and holds no other.
pub proof fn lemma_reply_comes_last(outcome: OutcomeView, i: int)
    requires
        0 <= i < outcome.plan().len(),
    ensures
        outcome.plan()[i] is Reply <==> i == outcome.plan().len() - 1,
        outcome.plan().last() == (ActionView::Reply { text: outcome.reply_text() }),
{
}

/// The same valid address requested twice in a row is handled twice: two
/// notifications, and two success replies that hold two successive counts and
/// so differ.
pub proof fn lemma_repeated_request_is_not_deduplicated(
    count: nat,
    shared: MigrationView,
    address: Seq<char>,
)
    requires
        parse_address(address) is Ok,
    ensures
        ({
            let first = rebind_step(count, shared, address);
            let second = rebind_step(first.count, first.shared, address);
            &&& first.outcome is Accepted
            &&& second.outcome is Accepted
            &&& notifications_in(first.outcome.plan()) == 1
            &&& notifications_in(second.outcome.plan()) == 1
            &&& first.outcome.reply_text() == success_text(count + 1)
            &&& second.outcome.reply_text() == success_text(count + 2)
            &&& first.outcome.reply_text() != second.outcome.reply_text()
            &&& second.shared.next_target == address
            &&& second.shared.migration_epoch == shared.migration_epoch + 2
        }),
{
    let first = rebind_step(count, shared, address);
    lemma_valid_request_notifies_once(count, shared, address);
    lemma_valid_request_notifies_once(first.count, first.shared, address);
    if success_text(count + 1) == success_text(count + 2) {
        lemma_success_text_names_count(count + 1, count + 2);
    }
}

/// The invocation count and the shared state after a run of requests, and
/// how each of them ended.
pub struct HandlerRun {
    pub count: nat,
    pub shared: MigrationView,
    pub outcomes: Seq<OutcomeView>,
}

/// What a run of requests does, handled one after the other.
pub open spec fn rebind_run(
    count: nat,
    shared: MigrationView,
    addresses: Seq<Seq<char>>,
) -> HandlerRun
    decreases addresses.len(),
{
    if addresses.len() == 0 {
        HandlerRun { count, shared, outcomes: Seq::<OutcomeView>::empty() }
    } else {
        let before = rebind_run(count, shared, addresses.drop_last());
        let step = rebind_step(before.count, before.shared, addresses.last());
        HandlerRun {
            count: step.count,
            shared: step.shared,
            outcomes: before.outcomes.push(step.outcome),
        }
    }
}

/// Over any run of requests, in whatever order the lock lets them through:
/// the count rises by one with each, valid or not; the shared state is what
/// the updates of the run leave, so the last request wins; and each request
/// ends as its own address and its own count decide, whatever the others were.
pub proof fn lemma_run_of_requests(count: nat, shared: MigrationView, addresses: Seq<Seq<char>>)
    ensures
        rebind_run(count, shared, addresses).count == count + addresses.len(),
        rebind_run(count, shared, addresses).shared == after_updates(shared, addresses),
        rebind_run(count, shared, addresses).outcomes.len() == addresses.len(),
        forall|i: int|
            0 <= i < addresses.len() ==> #[trigger] rebind_run(
                count,
                shared,
                addresses,
            ).outcomes[i] == outcome_of((count + i + 1) as nat, addresses[i]),
    decreases addresses.len(),
{
    if addresses.len() > 0 {
        let front = addresses.drop_last();
        lemma_run_of_requests(count, shared, front);
        let before = rebind_run(count, shared, front);
        let all = rebind_run(count, shared, addresses);
        assert forall|i: int| 0 <= i < addresses.len() implies #[trigger] all.outcomes[i]
            == outcome_of((count + i + 1) as nat, addresses[i]) by {
            if i < front.len() {
                assert(all.outcomes[i] == before.outcomes[i]);
                assert(front[i] == addresses[i]);
            }
        }
    }
}

} // verus!
