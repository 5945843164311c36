//! One request in flight: the actions that answer it, handed out one at a
//! time against the readings of a clock.
//!
//! A call starts when its request has been published, with a reading of a
//! monotonic clock in milliseconds that was taken after the publication, not
//! before it. Whoever carries the call out asks for the next action with the
//! current reading of that clock, does what the action says, and asks again.
//! The notification is handed out only once a reading shows that the settling
//! delay has passed since the reading of the start, and so since the
//! publication.

use crate::address::parse_address;
use crate::handler::{
    lemma_count_pushed, notifications_in, rebind_step, ActionView, ControlAction, OutcomeView, RebindOutcome,
    SETTLING_MILLIS,
};
use crate::reply::{rejection_text, success_text};
use crate::state::MigrationView;
use vstd::prelude::*;

verus! {

/// How far a call has come.
#[derive(Clone, Copy, Debug, PartialEq, Eq, Structural)]
pub enum CallStage {
    /// The request is published; the notification waits for the delay.
    Settling,
    /// Only the reply is left.
    Replying,
    /// Everything has been handed out.
    Done,
}

/// A call as plain values.
pub struct CallView {
    pub outcome: OutcomeView,
    pub published_at: nat,
    pub stage: CallStage,
}

/// A call after one reading of the clock, and the action handed out, if any
/// was left.
pub struct CallStep {
    pub call: CallView,
    pub action: Option<ActionView>,
}

/// A call after a run of readings, and the actions handed out, in order.
pub struct CallRun {
    pub call: CallView,
    pub actions: Seq<ActionView>,
}

impl CallView {
    /// The call of a request that has just been published.
    pub open spec fn started(outcome: OutcomeView, published_at: nat) -> CallView {
        CallView {
            outcome,
            published_at,
            stage: if outcome is Accepted {
                CallStage::Settling
            } else {
                CallStage::Replying
            },
        }
    }

    /// The milliseconds that have passed since the publication. A reading
    /// from before the publication counts as none.
    pub open spec fn elapsed(self, now: nat) -> nat {
        if now >= self.published_at {
            (now - self.published_at) as nat
        } else {
            0
        }
    }

    /// Only an accepted request has anything to settle.
    pub open spec fn well_formed(self) -> bool {
        self.stage == CallStage::Settling ==> self.outcome is Accepted
    }

    /// What the call hands out at the reading `now`. While the delay has not
    /// passed, it is the wait for the rest of it; once it has, the
    /// notification; then the reply; then nothing.
    pub open spec fn step(self, now: nat) -> CallStep {
        match self.stage {
            CallStage::Settling => if self.elapsed(now) >= SETTLING_MILLIS {
                CallStep {
                    call: CallView { stage: CallStage::Replying, ..self },
                    action: Some(ActionView::Notify { address: self.outcome->address }),
                }
            } else {
                CallStep {
                    call: self,
                    action: Some(
                        ActionView::Settle {
                            millis: (SETTLING_MILLIS - self.elapsed(now)) as u64,
                        },
                    ),
                }
            },
            CallStage::Replying => CallStep {
                call: CallView { stage: CallStage::Done, ..self },
                action: Some(ActionView::Reply { text: self.outcome.reply_text() }),
            },
            CallStage::Done => CallStep { call: self, action: None },
        }
    }

    /// The call after a run of readings, with everything it handed out.
    pub open spec fn run(self, readings: Seq<nat>) -> CallRun
        decreases readings.len(),
    {
        if readings.len() == 0 {
            CallRun { call: self, actions: Seq::<ActionView>::empty() }
        } else {
            let before = self.run(readings.drop_last());
            let step = before.call.step(readings.last());
            CallRun {
                call: step.call,
                actions: match step.action {
                    Some(action) => before.actions.push(action),
                    None => before.actions,
                },
            }
        }
    }
}

/// One request in flight.
#[derive(Debug, PartialEq, Eq)]
pub struct RebindCall {
    outcome: RebindOutcome,
    published_at: u64,
    stage: CallStage,
}

impl View for RebindCall {
    type V = CallView;

    closed spec fn view(&self) -> CallView {
        CallView {
            outcome: self.outcome@,
            published_at: self.published_at as nat,
            stage: self.stage,
        }
    }
}

impl RebindCall {
    /// Only an accepted request has anything to settle.
    #[verifier::type_invariant]
    spec fn settles_only_accepted(self) -> bool {
        self.stage == CallStage::Settling ==> self.outcome is Accepted
    }

    /// Starts the call of a request that has been published. The reading
    /// `published_at` is to be taken once the shared state holds the request.
    pub fn start(outcome: RebindOutcome, published_at: u64) -> (call: RebindCall)
        ensures
            call@ == CallView::started(outcome@, published_at as nat),
            call@.well_formed(),
    {
        let stage = if outcome.is_accepted() {
            CallStage::Settling
        } else {
            CallStage::Replying
        };
        RebindCall { outcome, published_at, stage }
    }

    /// How the request ended.
    pub fn outcome(&self) -> (outcome: &RebindOutcome)
        ensures
            outcome@ == self@.outcome,
            self@.well_formed(),
    {
        proof {
            use_type_invariant(self);
        }
        &self.outcome
    }

    /// How far the call has come.
    pub fn stage(&self) -> (stage: CallStage)
        ensures
            stage == self@.stage,
    {
        self.stage
    }

    /// Whether everything has been handed out.
    pub fn is_done(&self) -> (done: bool)
        ensures
            done == (self@.stage == CallStage::Done),
    {
        match self.stage {
            CallStage::Done => true,
            _ => false,
        }
    }

    /// Hands out the next action at the reading `now`, or nothing where the
    /// call is done.
    pub fn next_action(&mut self, now: u64) -> (action: Option<ControlAction>)
        ensures
            old(self)@.well_formed(),
            final(self)@ == old(self)@.step(now as nat).call,
            final(self)@.well_formed(),
            match action {
                Some(a) => old(self)@.step(now as nat).action == Some(a@),
                None => old(self)@.step(now as nat).action is None,
            },
    {
        proof {
            use_type_invariant(&*self);
        }
        match self.stage {
            CallStage::Settling => {
                let elapsed: u64 = if now >= self.published_at {
                    now - self.published_at
                } else {
                    0
                };
                if elapsed >= SETTLING_MILLIS {
                    self.stage = CallStage::Replying;
                    match &self.outcome {
                        RebindOutcome::Accepted { address, .. } => Some(
                            ControlAction::Notify { address: address.clone() },
                        ),
                        RebindOutcome::Rejected { reply, .. } => Some(
                            ControlAction::Reply { text: reply.clone() },
                        ),
                    }
                } else {
                    Some(ControlAction::Settle { millis: SETTLING_MILLIS - elapsed })
                }
            },
            CallStage::Replying => {
                self.stage = CallStage::Done;
                Some(ControlAction::Reply { text: String::from_str(self.outcome.reply()) })
            },
            CallStage::Done => None,
        }
    }
}

/// A run changes neither the outcome of a call nor the reading at which its
/// request was published, and keeps the call well formed.
pub proof fn lemma_run_keeps_the_request(call: CallView, readings: Seq<nat>)
    requires
        call.well_formed(),
    ensures
        call.run(readings).call.outcome == call.outcome,
        call.run(readings).call.published_at == call.published_at,
        call.run(readings).call.well_formed(),
    decreases readings.len(),
{
    if readings.len() > 0 {
        lemma_run_keeps_the_request(call, readings.drop_last());
    }
}

/// The notification is never handed out early: where a reading brings it
/// out, that reading is at least the settling delay past the publication.
pub proof fn lemma_notification_waits_for_the_delay(call: CallView, now: nat)
    requires
        call.well_formed(),
        call.step(now).action is Some,
        call.step(now).action->0 is Notify,
    ensures
        now >= call.published_at + SETTLING_MILLIS,
        call.outcome is Accepted,
        call.step(now).action->0 == (ActionView::Notify { address: call.outcome->address }),
{
}

/// The same holds at every point of every run of a call from its start:
/// whatever the readings, one that brings out the notification is at least
/// the settling delay past the publication.
pub proof fn lemma_no_run_notifies_early(
    outcome: OutcomeView,
    published_at: nat,
    readings: Seq<nat>,
    now: nat,
)
    requires
        ({
            let reached = CallView::started(outcome, published_at).run(readings).call;
            reached.step(now).action is Some && reached.step(now).action->0 is Notify
        }),
    ensures
        now >= published_at + SETTLING_MILLIS,
        outcome is Accepted,
{
    let call = CallView::started(outcome, published_at);
    lemma_run_keeps_the_request(call, readings);
    lemma_notification_waits_for_the_delay(call.run(readings).call, now);
}

/// Whether every action of `actions` before the place `end` is a wait.
pub open spec fn waits_before(actions: Seq<ActionView>, end: int) -> bool {
    forall|i: int| 0 <= i < end && i < actions.len() ==> (#[trigger] actions[i]) is Settle
}

/// What a call has handed out, by the stage it has reached. While it
/// settles, only waits; once the delay has passed, the waits and then the
/// notification; when it is done, the reply after that. A rejected request
/// hands out the reply and nothing else.
pub open spec fn handed_out(run: CallRun) -> bool {
    let n = run.actions.len() as int;
    let notify = ActionView::Notify { address: run.call.outcome->address };
    let reply = ActionView::Reply { text: run.call.outcome.reply_text() };
    match run.call.stage {
        CallStage::Settling => waits_before(run.actions, n),
        CallStage::Replying => if run.call.outcome is Accepted {
            n >= 1 && run.actions[n - 1] == notify && waits_before(run.actions, n - 1)
        } else {
            n == 0
        },
        CallStage::Done => if run.call.outcome is Accepted {
            n >= 2 && run.actions[n - 1] == reply && run.actions[n - 2] == notify && waits_before(
                run.actions,
                n - 2,
            )
        } else {
            run.actions == seq![reply]
        },
    }
}

/// Whatever the readings of the clock, a call hands out its actions in the
/// order of the plan: the waits, then the one notification, then the one
/// reply for an accepted request; the reply alone for a rejected one.
pub proof fn lemma_run_follows_the_plan(
    outcome: OutcomeView,
    published_at: nat,
    readings: Seq<nat>,
)
    ensures
        handed_out(CallView::started(outcome, published_at).run(readings)),
    decreases readings.len(),
{
    let call = CallView::started(outcome, published_at);
    if readings.len() > 0 {
        lemma_run_follows_the_plan(outcome, published_at, readings.drop_last());
        lemma_run_keeps_the_request(call, readings.drop_last());
        let before = call.run(readings.drop_last());
        let after = call.run(readings);
        let step = before.call.step(readings.last());
        if let Some(action) = step.action {
            assert forall|i: int| 0 <= i < before.actions.len() implies after.actions[i]
                == before.actions[i] by {}
        }
    }
}

/// A run of waits holds no notification.
proof fn lemma_waits_hold_no_notification(actions: Seq<ActionView>)
    requires
        waits_before(actions, actions.len() as int),
    ensures
        notifications_in(actions) == 0,
    decreases actions.len(),
{
    if actions.len() > 0 {
        let front = actions.drop_last();
        assert forall|i: int| 0 <= i < front.len() implies (#[trigger] front[i]) is Settle by {
            assert(front[i] == actions[i]);
        }
        lemma_waits_hold_no_notification(front);
    }
}

/// Whatever the readings of the clock, a rejected request is never
/// notified, and an accepted one is notified at most once: not at all while
/// it settles, and exactly once from then on.
pub proof fn lemma_run_notifies_at_most_once(
    outcome: OutcomeView,
    published_at: nat,
    readings: Seq<nat>,
)
    ensures
        ({
            let run = CallView::started(outcome, published_at).run(readings);
            notifications_in(run.actions) == if outcome is Accepted && run.call.stage
                != CallStage::Settling {
                1nat
            } else {
                0nat
            }
        }),
{
    let call = CallView::started(outcome, published_at);
    let run = call.run(readings);
    lemma_run_follows_the_plan(outcome, published_at, readings);
    lemma_run_keeps_the_request(call, readings);
    let n = run.actions.len() as int;
    let notify = ActionView::Notify { address: outcome->address };
    let reply = ActionView::Reply { text: outcome.reply_text() };
    if run.call.stage == CallStage::Settling {
        lemma_waits_hold_no_notification(run.actions);
    } else if outcome is Accepted {
        let waits = run.actions.subrange(
            0,
            if run.call.stage == CallStage::Replying {
                n - 1
            } else {
                n - 2
            },
        );
        assert forall|i: int| 0 <= i < waits.len() implies (#[trigger] waits[i]) is Settle by {
            assert(waits[i] == run.actions[i]);
        }
        lemma_waits_hold_no_notification(waits);
        lemma_count_pushed(waits, notify);
        if run.call.stage == CallStage::Replying {
            assert(run.actions =~= waits.push(notify));
        } else {
            lemma_count_pushed(waits.push(notify), reply);
            assert(run.actions =~= waits.push(notify).push(reply));
        }
    } else if run.call.stage == CallStage::Done {
        lemma_count_pushed(Seq::<ActionView>::empty(), reply);
        assert(run.actions =~= Seq::<ActionView>::empty().push(reply));
    }
}

/// A call that is done has handed out the reply of its request last, and
/// hands out nothing more.
pub proof fn lemma_done_call_has_replied(
    outcome: OutcomeView,
    published_at: nat,
    readings: Seq<nat>,
    now: nat,
)
    requires
        CallView::started(outcome, published_at).run(readings).call.stage == CallStage::Done,
    ensures
        ({
            let run = CallView::started(outcome, published_at).run(readings);
            &&& run.actions.len() >= 1
            &&& run.actions.last() == (ActionView::Reply { text: outcome.reply_text() })
            &&& run.call.step(now).action is None
            &&& run.call.step(now).call == run.call
        }),
{
    lemma_run_follows_the_plan(outcome, published_at, readings);
    lemma_run_keeps_the_request(CallView::started(outcome, published_at), readings);
}

/// Once the settling delay has passed, a call is done within two readings:
/// nothing holds it back any longer.
pub proof fn lemma_settled_call_completes(call: CallView, first: nat, second: nat)
    requires
        call.well_formed(),
        call.stage != CallStage::Done,
        first >= call.published_at + SETTLING_MILLIS,
    ensures
        call.stage == CallStage::Settling ==> call.step(first).call.step(second).call.stage
            == CallStage::Done,
        call.stage == CallStage::Replying ==> call.step(first).call.stage == CallStage::Done,
{
}

/// The actions of `actions` that are no waits, in order.
pub open spec fn without_waits(actions: Seq<ActionView>) -> Seq<ActionView>
    decreases actions.len(),
{
    if actions.len() == 0 {
        Seq::<ActionView>::empty()
    } else if actions.last() is Settle {
        without_waits(actions.drop_last())
    } else {
        without_waits(actions.drop_last()).push(actions.last())
    }
}

/// One more action is left out where it is a wait, and kept where it is not.
proof fn lemma_without_waits_pushed(actions: Seq<ActionView>, action: ActionView)
    ensures
        without_waits(actions.push(action)) == if action is Settle {
            without_waits(actions)
        } else {
            without_waits(actions).push(action)
        },
{
    assert(actions.push(action).drop_last() =~= actions);
}

/// Nothing is left of a run of waits once the waits are left out.
proof fn lemma_waits_leave_nothing(actions: Seq<ActionView>)
    requires
        waits_before(actions, actions.len() as int),
    ensures
        without_waits(actions) == Seq::<ActionView>::empty(),
    decreases actions.len(),
{
    if actions.len() > 0 {
        let front = actions.drop_last();
        assert forall|i: int| 0 <= i < front.len() implies (#[trigger] front[i]) is Settle by {
            assert(front[i] == actions[i]);
        }
        lemma_waits_leave_nothing(front);
    }
}

/// A call asked at the reading of its publication begins as the plan does:
/// with the wait for the whole settling delay where the request was accepted,
/// with the reply where it was rejected.
pub proof fn lemma_call_begins_as_planned(outcome: OutcomeView, published_at: nat)
    ensures
        CallView::started(outcome, published_at).step(published_at).action == Some(
            outcome.plan()[0],
        ),
{
}

/// A call carried out to the end has handed out what the plan holds, in the
/// order of the plan: the two differ only in how the wait is cut up.
pub proof fn lemma_completed_call_is_the_plan(
    outcome: OutcomeView,
    published_at: nat,
    readings: Seq<nat>,
)
    requires
        CallView::started(outcome, published_at).run(readings).call.stage == CallStage::Done,
    ensures
        without_waits(CallView::started(outcome, published_at).run(readings).actions)
            == without_waits(outcome.plan()),
{
    let run = CallView::started(outcome, published_at).run(readings);
    lemma_run_follows_the_plan(outcome, published_at, readings);
    lemma_run_keeps_the_request(CallView::started(outcome, published_at), readings);
    let none = Seq::<ActionView>::empty();
    let plan = outcome.plan();
    let n = run.actions.len() as int;
    if outcome is Accepted {
        let waits = run.actions.subrange(0, n - 2);
        assert forall|i: int| 0 <= i < waits.len() implies (#[trigger] waits[i]) is Settle by {
            assert(waits[i] == run.actions[i]);
        }
        lemma_waits_leave_nothing(waits);
        lemma_without_waits_pushed(waits, plan[1]);
        lemma_without_waits_pushed(waits.push(plan[1]), plan[2]);
        assert(run.actions =~= waits.push(plan[1]).push(plan[2]));
        lemma_without_waits_pushed(none, plan[0]);
        lemma_without_waits_pushed(none.push(plan[0]), plan[1]);
        lemma_without_waits_pushed(none.push(plan[0]).push(plan[1]), plan[2]);
        assert(plan =~= none.push(plan[0]).push(plan[1]).push(plan[2]));
    } else {
        assert(run.actions =~= plan);
    }
}

/// A request with a valid address, carried out to the end against any
/// readings of the clock, has been notified exactly once, with the address as
/// requested, and has then been answered with the success text that holds its
/// invocation count.
pub proof fn lemma_valid_request_completes(
    count: nat,
    shared: MigrationView,
    address: Seq<char>,
    published_at: nat,
    readings: Seq<nat>,
)
    requires
        parse_address(address) is Ok,
        CallView::started(rebind_step(count, shared, address).outcome, published_at).run(
            readings,
        ).call.stage == CallStage::Done,
    ensures
        ({
            let outcome = rebind_step(count, shared, address).outcome;
            let actions = CallView::started(outcome, published_at).run(readings).actions;
            let n = actions.len() as int;
            &&& notifications_in(actions) == 1
            &&& n >= 2
            &&& actions[n - 2] == (ActionView::Notify { address })
            &&& actions[n - 1] == (ActionView::Reply { text: success_text(count + 1) })
            &&& waits_before(actions, n - 2)
        }),
{
    let outcome = rebind_step(count, shared, address).outcome;
    lemma_run_follows_the_plan(outcome, published_at, readings);
    lemma_run_notifies_at_most_once(outcome, published_at, readings);
    lemma_run_keeps_the_request(CallView::started(outcome, published_at), readings);
}

/// A request with an invalid address is never notified, whatever the
/// readings of the clock and however far it is carried out; carried out to
/// the end, it has been answered with the text that names the reason, and
/// nothing else has happened.
pub proof fn lemma_invalid_request_never_notifies(
    count: nat,
    shared: MigrationView,
    address: Seq<char>,
    published_at: nat,
    readings: Seq<nat>,
)
    requires
        parse_address(address) is Err,
    ensures
        ({
            let outcome = rebind_step(count, shared, address).outcome;
            let run = CallView::started(outcome, published_at).run(readings);
            &&& notifications_in(run.actions) == 0
            &&& run.call.stage == CallStage::Done ==> run.actions == seq![
                ActionView::Reply { text: rejection_text(parse_address(address)->Err_0) },
            ]
            &&& run.call.stage != CallStage::Done ==> run.actions.len() == 0
        }),
{
    let outcome = rebind_step(count, shared, address).outcome;
    lemma_run_follows_the_plan(outcome, published_at, readings);
    lemma_run_notifies_at_most_once(outcome, published_at, readings);
    lemma_run_keeps_the_request(CallView::started(outcome, published_at), readings);
}

} // verus!
