use rebind_control::call::{CallStage, RebindCall};
use rebind_control::handler::{ControlAction, RebindHandler};
use rebind_control::state::MigrationState;

fn call_for(address: &str, published_at: u64) -> RebindCall {
    let mut handler = RebindHandler::new();
    let mut shared = MigrationState::new();
    RebindCall::start(handler.rebind(&mut shared, address), published_at)
}

fn notify(address: &str) -> Option<ControlAction> {
    Some(ControlAction::Notify { address: String::from(address) })
}

fn reply(text: &str) -> Option<ControlAction> {
    Some(ControlAction::Reply { text: String::from(text) })
}

#[test]
fn end_to_end_scenario() {
    let mut handler = RebindHandler::new();
    let mut shared = MigrationState::new();

    let mut first = RebindCall::start(handler.rebind(&mut shared, "127.0.0.1:6000"), 1_000);
    assert_eq!(first.next_action(1_000), Some(ControlAction::Settle { millis: 500 }));
    assert_eq!(first.next_action(1_500), notify("127.0.0.1:6000"));
    assert_eq!(first.next_action(1_500), reply("Hello! This API has been used 1 times."));
    assert_eq!(first.next_action(1_500), None);

    let mut second = RebindCall::start(handler.rebind(&mut shared, "bogus"), 2_000);
    assert_eq!(second.next_action(2_000), reply("Invalid address: the address names no port"));
    assert_eq!(second.next_action(9_000), None);

    let mut third = RebindCall::start(handler.rebind(&mut shared, "127.0.0.1:6000"), 3_000);
    assert_eq!(third.next_action(3_600), notify("127.0.0.1:6000"));
    assert_eq!(third.next_action(3_600), reply("Hello! This API has been used 3 times."));
}

#[test]
fn notification_is_held_back_until_the_delay_has_passed() {
    let mut call = call_for("127.0.0.1:6000", 10_000);
    assert_eq!(call.stage(), CallStage::Settling);
    assert_eq!(call.next_action(10_000), Some(ControlAction::Settle { millis: 500 }));
    assert_eq!(call.next_action(10_001), Some(ControlAction::Settle { millis: 499 }));
    assert_eq!(call.next_action(10_499), Some(ControlAction::Settle { millis: 1 }));
    assert_eq!(call.stage(), CallStage::Settling);
    assert_eq!(call.next_action(10_500), notify("127.0.0.1:6000"));
    assert_eq!(call.stage(), CallStage::Replying);
    assert!(!call.is_done());
    assert_eq!(call.next_action(10_500), reply("Hello! This API has been used 1 times."));
    assert_eq!(call.stage(), CallStage::Done);
    assert!(call.is_done());
}

#[test]
fn reading_from_before_the_publication_counts_as_no_time() {
    let mut call = call_for("127.0.0.1:6000", 10_000);
    assert_eq!(call.next_action(0), Some(ControlAction::Settle { millis: 500 }));
    assert_eq!(call.next_action(9_999), Some(ControlAction::Settle { millis: 500 }));
    assert_eq!(call.next_action(u64::MAX), notify("127.0.0.1:6000"));
}

#[test]
fn late_publication_reading_does_not_overflow() {
    let mut call = call_for("127.0.0.1:6000", u64::MAX);
    assert_eq!(call.next_action(u64::MAX), Some(ControlAction::Settle { millis: 500 }));
    assert_eq!(call.next_action(0), Some(ControlAction::Settle { millis: 500 }));
    assert_eq!(call.stage(), CallStage::Settling);
}

#[test]
fn rejected_call_only_replies() {
    for address in ["", "not-an-address", "host:99999", "1.2.3.4:x", "host:1"] {
        let mut call = call_for(address, 5);
        assert_eq!(call.stage(), CallStage::Replying);
        let text = String::from(call.outcome().reply());
        assert_eq!(call.next_action(5), Some(ControlAction::Reply { text }));
        assert!(call.is_done());
        assert_eq!(call.next_action(5_000), None);
        assert_eq!(call.next_action(5_000), None);
    }
}

#[test]
fn every_schedule_notifies_a_valid_address_exactly_once() {
    for step in [1u64, 7, 100, 250, 499, 500, 501, 10_000] {
        let mut call = call_for("[::1]:6000", 40);
        let mut now = 40;
        let mut notified = 0;
        let mut replied = 0;
        let mut rounds = 0;
        while let Some(action) = call.next_action(now) {
            match action {
                ControlAction::Settle { millis } => {
                    assert_eq!(notified, 0);
                    assert_eq!(millis, 540 - now);
                },
                ControlAction::Notify { address } => {
                    assert!(now >= 540);
                    assert_eq!(address, "[::1]:6000");
                    assert_eq!(replied, 0);
                    notified += 1;
                },
                ControlAction::Reply { text } => {
                    assert_eq!(notified, 1);
                    assert_eq!(text, "Hello! This API has been used 1 times.");
                    replied += 1;
                },
            }
            now += step;
            rounds += 1;
            assert!(rounds < 2_000);
        }
        assert_eq!(notified, 1);
        assert_eq!(replied, 1);
    }
}

#[test]
fn outcome_stays_with_the_call() {
    let mut call = call_for("127.0.0.1:6000", 0);
    assert!(call.outcome().is_accepted());
    call.next_action(500);
    call.next_action(500);
    assert!(call.outcome().is_accepted());
    assert_eq!(call.outcome().reply(), "Hello! This API has been used 1 times.");
}
