use daemon_core::daemon::Daemon;
use daemon_core::json::JsonValue;
use daemon_core::message::{decode_message, encode_message, BaseMessage, MessageType};
use daemon_core::protocol::{encode_change_event, encode_request, encode_response, SettingsRequest, SettingsResponse};
use daemon_core::service::{OriginAttributes, SETTINGS_SERVICE};
use daemon_core::session::{MessageKind, MessageSender, SessionState};
use daemon_core::store::SettingInfo;

fn open(d: &mut Daemon) -> u32 {
    let id = d.open_session(OriginAttributes::new("uds".to_string(), vec![])).unwrap();
    assert_eq!(d.session_state(id), Some(SessionState::Opening));
    assert!(d.attach(id, MessageSender::new()));
    assert_eq!(d.session_state(id), Some(SessionState::Active));
    id
}

fn frame(service: u32, object: u32, req: &SettingsRequest) -> Vec<u8> {
    encode_message(&BaseMessage {
        service,
        object,
        kind: MessageType::Request,
        content: encode_request(req),
    })
}

fn decoded(messages: &[MessageKind]) -> Vec<BaseMessage> {
    messages
        .iter()
        .map(|m| match m {
            MessageKind::Data(service, bytes) => {
                let msg = decode_message(bytes).unwrap();
                assert_eq!(*service, msg.service);
                msg
            }
            other => panic!("unexpected {:?}", other),
        })
        .collect()
}

fn x_is_one() -> SettingInfo {
    SettingInfo { name: "x".to_string(), value: JsonValue::parse("1".to_string()).unwrap() }
}

#[test]
fn set_reaches_observer_of_other_session() {
    let mut d = Daemon::new();
    let a = open(&mut d);
    let b = open(&mut d);
    assert_ne!(a, b);

    assert_eq!(d.on_message(b, &frame(SETTINGS_SERVICE, 5, &SettingsRequest::AddObserver("x".to_string()))), 0);
    let replies = decoded(&d.take_messages(b));
    assert_eq!(replies.len(), 1);
    assert_eq!(replies[0].kind, MessageType::Response);
    assert_eq!(replies[0].object, 5);
    let observer = match replies[0].content[0] {
        8 => replies[0].content[1] as u32,
        _ => panic!("observer not added"),
    };

    let set = SettingsRequest::SetBatch(vec![x_is_one()]);
    assert_eq!(d.on_message(a, &frame(SETTINGS_SERVICE, 0, &set)), 0);
    let to_a = decoded(&d.take_messages(a));
    assert_eq!(to_a[0].kind, MessageType::Response);
    assert_eq!(to_a[0].service, SETTINGS_SERVICE);
    assert_eq!(to_a[0].content, encode_response(&SettingsResponse::SetSuccess));

    let to_b = decoded(&d.take_messages(b));
    let event = to_b
        .iter()
        .find(|m| m.object == observer)
        .expect("observer got no event");
    assert_eq!(event.kind, MessageType::Event);
    assert_eq!(event.service, SETTINGS_SERVICE);
    assert_eq!(event.content, encode_change_event(&x_is_one()));
}

#[test]
fn unknown_service_is_dropped() {
    let mut d = Daemon::new();
    let a = open(&mut d);
    assert_eq!(d.on_message(a, &frame(99, 0, &SettingsRequest::Clear)), 0);
    assert!(d.take_messages(a).is_empty());
    assert_eq!(d.session_state(a), Some(SessionState::Active));
    // a malformed frame is dropped too
    assert_eq!(d.on_message(a, &[1, 2]), 0);
    assert!(d.take_messages(a).is_empty());
    assert_eq!(d.session_state(a), Some(SessionState::Active));
}

#[test]
fn dead_channel_does_not_stop_other_deliveries() {
    let mut d = Daemon::new();
    let a = open(&mut d);
    let b = open(&mut d);
    let c = open(&mut d);
    for s in [a, b, c] {
        d.on_message(s, &frame(SETTINGS_SERVICE, 0, &SettingsRequest::GetBatch(vec![])));
        d.take_messages(s);
    }
    // the transport of b is gone
    assert!(d.attach(b, MessageSender::dummy()));
    let set = SettingsRequest::SetBatch(vec![x_is_one()]);
    assert_eq!(d.on_message(a, &frame(SETTINGS_SERVICE, 0, &set)), 1);
    assert_eq!(decoded(&d.take_messages(a)).len(), 2);
    assert!(d.take_messages(b).is_empty());
    let to_c = decoded(&d.take_messages(c));
    assert_eq!(to_c.len(), 1);
    assert_eq!(to_c[0].kind, MessageType::Event);
}

#[test]
fn closing_is_idempotent() {
    let mut d = Daemon::new();
    let a = open(&mut d);
    let b = open(&mut d);
    d.on_message(a, &frame(SETTINGS_SERVICE, 0, &SettingsRequest::Clear));
    d.take_messages(a);
    assert!(d.close_session(a));
    assert_eq!(d.session_state(a), Some(SessionState::Closed));
    let closing = d.take_messages(a);
    assert_eq!(closing.len(), 1);
    assert!(matches!(closing[0], MessageKind::Close));
    assert!(d.close_session(a));
    assert!(d.take_messages(a).is_empty());
    assert!(!d.close_session(1000));
    // a closed session routes nothing
    assert_eq!(d.on_message(a, &frame(SETTINGS_SERVICE, 0, &SettingsRequest::Clear)), 0);
    assert!(d.take_messages(a).is_empty());
    // and its dispatcher is gone: b's change reaches b alone
    let set = SettingsRequest::SetBatch(vec![x_is_one()]);
    assert_eq!(d.on_message(b, &frame(SETTINGS_SERVICE, 0, &set)), 0);
    assert_eq!(d.take_messages(b).len(), 2);
}
