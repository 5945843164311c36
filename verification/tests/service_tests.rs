use rebind_control::call::RebindCall;
use rebind_control::handler::ControlAction;
use rebind_control::service::{
    ControlService, ServiceAction, ServiceEvent, ServicePhase, ADDRESS_ARGUMENT, INTERFACE_NAME,
    OBJECT_PATH, REBIND_METHOD, REBIND_SIGNAL, REPLY_ARGUMENT, SERVICE_NAME,
};
use rebind_control::state::MigrationState;

fn request(address: &str) -> ServiceEvent {
    ServiceEvent::Request { address: String::from(address) }
}

#[test]
fn endpoint_names() {
    assert_eq!(SERVICE_NAME, "org.freedesktop.gst");
    assert_eq!(OBJECT_PATH, "/quic");
    assert_eq!(INTERFACE_NAME, "org.freedesktop.gst");
    assert_eq!(REBIND_METHOD, "Rebind");
    assert_eq!(REBIND_SIGNAL, "RebindHappened");
    assert_eq!(ADDRESS_ARGUMENT, "addr");
    assert_eq!(REPLY_ARGUMENT, "reply");
}

#[test]
fn service_starts_then_listens() {
    let mut service = ControlService::new();
    let mut shared = MigrationState::new();
    assert_eq!(service.phase(), ServicePhase::Starting);
    assert_eq!(service.called_count(), 0);
    assert_eq!(service.step(&mut shared, ServiceEvent::Registered), ServiceAction::Listen);
    assert_eq!(service.phase(), ServicePhase::Listening);
    assert_eq!(service.step(&mut shared, ServiceEvent::Registered), ServiceAction::Ignore);
    assert_eq!(service.phase(), ServicePhase::Listening);
}

#[test]
fn request_before_listening_is_ignored() {
    let mut service = ControlService::new();
    let mut shared = MigrationState::new();
    assert_eq!(service.step(&mut shared, request("127.0.0.1:6000")), ServiceAction::Ignore);
    assert_eq!(service.called_count(), 0);
    assert_eq!(shared.migration_epoch(), 0);
    assert_eq!(service.phase(), ServicePhase::Starting);
}

#[test]
fn listening_service_answers_requests() {
    let mut service = ControlService::new();
    let mut shared = MigrationState::new();
    service.step(&mut shared, ServiceEvent::Registered);
    match service.step(&mut shared, request("127.0.0.1:6000")) {
        ServiceAction::Answer { outcome } => {
            assert_eq!(outcome.reply(), "Hello! This API has been used 1 times.");
            let mut call = RebindCall::start(outcome, 100);
            assert_eq!(call.next_action(100), Some(ControlAction::Settle { millis: 500 }));
            assert_eq!(call.next_action(599), Some(ControlAction::Settle { millis: 1 }));
            assert_eq!(
                call.next_action(600),
                Some(ControlAction::Notify { address: String::from("127.0.0.1:6000") })
            );
            assert_eq!(
                call.next_action(600),
                Some(ControlAction::Reply {
                    text: String::from("Hello! This API has been used 1 times.")
                })
            );
            assert_eq!(call.next_action(600), None);
        },
        other => panic!("unexpected action {:?}", other),
    }
    match service.step(&mut shared, request("bogus")) {
        ServiceAction::Answer { outcome } => {
            assert!(!outcome.is_accepted());
            assert_eq!(outcome.reply(), "Invalid address: the address names no port");
        },
        other => panic!("unexpected action {:?}", other),
    }
    assert_eq!(service.called_count(), 2);
    assert_eq!(shared.next_target(), "bogus");
    assert_eq!(shared.migration_epoch(), 2);
    assert_eq!(service.phase(), ServicePhase::Listening);
}

#[test]
fn transport_loss_ends_the_service() {
    let mut service = ControlService::new();
    let mut shared = MigrationState::new();
    service.step(&mut shared, ServiceEvent::Registered);
    service.step(&mut shared, request("127.0.0.1:6000"));
    assert_eq!(service.step(&mut shared, ServiceEvent::TransportLost), ServiceAction::Abort);
    assert_eq!(service.phase(), ServicePhase::Terminated);
    assert_eq!(service.step(&mut shared, request("127.0.0.1:6001")), ServiceAction::Ignore);
    assert_eq!(service.step(&mut shared, ServiceEvent::Registered), ServiceAction::Ignore);
    assert_eq!(service.step(&mut shared, ServiceEvent::TransportLost), ServiceAction::Ignore);
    assert_eq!(service.phase(), ServicePhase::Terminated);
    assert_eq!(service.called_count(), 1);
    assert_eq!(shared.next_target(), "127.0.0.1:6000");
    assert_eq!(shared.migration_epoch(), 1);
}

#[test]
fn transport_loss_while_starting_ends_the_service() {
    let mut service = ControlService::new();
    let mut shared = MigrationState::new();
    assert_eq!(service.step(&mut shared, ServiceEvent::TransportLost), ServiceAction::Abort);
    assert_eq!(service.phase(), ServicePhase::Terminated);
    assert_eq!(service.step(&mut shared, ServiceEvent::Registered), ServiceAction::Ignore);
    assert_eq!(service.phase(), ServicePhase::Terminated);
}
