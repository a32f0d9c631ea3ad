use daemon_core::events::Delivery;
use daemon_core::json::JsonValue;
use daemon_core::message::{encode_message, BaseMessage, MessageType};
use daemon_core::protocol::{
    decode_change_event, decode_request, decode_response, encode_change_event, encode_request,
    encode_response, GetErrorReason, SettingsRequest, SettingsResponse,
};
use daemon_core::service::{OriginAttributes, SettingsService, SettingsSharedData, SETTINGS_SERVICE};
use daemon_core::store::SettingInfo;
use daemon_core::codec::CodecError;

fn setting(name: &str, json: &str) -> SettingInfo {
    SettingInfo { name: name.to_string(), value: JsonValue::parse(json.to_string()).unwrap() }
}

fn origin(identity: &str, perms: &[&str]) -> OriginAttributes {
    OriginAttributes::new(identity.to_string(), perms.iter().map(|p| p.to_string()).collect())
}

fn request(object: u32, req: &SettingsRequest) -> BaseMessage {
    BaseMessage {
        service: SETTINGS_SERVICE,
        object,
        kind: MessageType::Request,
        content: encode_request(req),
    }
}

#[test]
fn json_values_are_checked() {
    assert!(JsonValue::parse("1".to_string()).is_some());
    assert!(JsonValue::parse("{\"a\": [true, null]}".to_string()).is_some());
    assert!(JsonValue::parse("{".to_string()).is_none());
    assert!(JsonValue::parse("".to_string()).is_none());
    assert_eq!(JsonValue::parse("\"x\"".to_string()).unwrap().as_str(), "\"x\"");
}

#[test]
fn request_round_trip() {
    let req = SettingsRequest::SetBatch(vec![setting("x", "1"), setting("y", "[1,2]")]);
    let bytes = encode_request(&req);
    match decode_request(&bytes).unwrap() {
        SettingsRequest::SetBatch(v) => {
            assert_eq!(v.len(), 2);
            assert_eq!(v[0].name, "x");
            assert_eq!(v[0].value.as_str(), "1");
            assert_eq!(v[1].name, "y");
            assert_eq!(v[1].value.as_str(), "[1,2]");
        }
        other => panic!("unexpected {:?}", other),
    }
    let req = SettingsRequest::RemoveObserver("volume".to_string(), 77);
    match decode_request(&encode_request(&req)).unwrap() {
        SettingsRequest::RemoveObserver(n, o) => {
            assert_eq!(n, "volume");
            assert_eq!(o, 77);
        }
        other => panic!("unexpected {:?}", other),
    }
}

#[test]
fn request_with_bad_json_is_refused() {
    // tag 2, one setting named "x" whose value text is "{"
    let bytes = vec![2, 1, 1, b'x', 1, b'{'];
    assert_eq!(decode_request(&bytes).unwrap_err(), CodecError::InvalidJson);
    assert_eq!(decode_request(&[9]).unwrap_err(), CodecError::InvalidTag);
    assert_eq!(decode_request(&[0, 0]).unwrap_err(), CodecError::TrailingBytes);
}

#[test]
fn response_encoding() {
    assert_eq!(encode_response(&SettingsResponse::SetSuccess), vec![4]);
    assert_eq!(
        encode_response(&SettingsResponse::GetError("ab".to_string(), GetErrorReason::NonExistingSetting)),
        vec![3, 2, b'a', b'b', 0]
    );
    assert_eq!(
        encode_response(&SettingsResponse::GetSuccess(setting("x", "1"))),
        vec![2, 1, b'x', 1, b'1']
    );
    assert_eq!(encode_response(&SettingsResponse::AddObserverSuccess(300)), vec![8, 251, 1, 44]);
}

#[test]
fn permission_denied_leaves_store_unchanged() {
    let mut state = SettingsSharedData::new();
    let writer = origin("app://writer", &["settings:write", "settings:read"]);
    let reader = origin("app://reader", &["settings:read"]);
    let mut w = SettingsService::create(&writer, 1, &mut state).unwrap();
    let mut r = SettingsService::create(&reader, 2, &mut state).unwrap();
    let (resp, _) = w.set(&mut state, &vec![setting("x", "1")]);
    assert!(matches!(resp, SettingsResponse::SetSuccess));
    assert_eq!(state.db.count(), 1);

    let (resp, events) = r.set(&mut state, &vec![setting("y", "2")]);
    match resp {
        SettingsResponse::PermissionError(p, why) => {
            assert_eq!(p, "settings:write");
            assert_eq!(why, "set settings");
        }
        other => panic!("unexpected {:?}", other),
    }
    assert!(events.is_empty());
    assert_eq!(state.db.count(), 1);
    assert!(matches!(r.clear(&mut state), SettingsResponse::PermissionError(_, _)));
    assert_eq!(state.db.count(), 1);

    let out = r.on_request(&mut state, &request(0, &SettingsRequest::Clear));
    assert_eq!(out.len(), 1);
    assert_eq!(out[0].session, 2);
    assert_eq!(out[0].message.kind, MessageType::Response);
    assert_eq!(
        out[0].message.content,
        encode_response(&SettingsResponse::PermissionError(
            "settings:write".to_string(),
            "clear settings".to_string()
        ))
    );
    assert_eq!(state.db.count(), 1);
    w.teardown(&mut state);
}

#[test]
fn trusted_identities_have_every_permission() {
    let mut state = SettingsSharedData::new();
    for id in ["uds", "fake-identity"] {
        let o = origin(id, &[]);
        let s = SettingsService::create(&o, 1, &mut state).unwrap();
        assert!(s.has_permission("settings:write", "test"));
        assert!(s.has_permission("anything", "test"));
    }
    let o = origin("udsx", &["settings:read"]);
    let s = SettingsService::create(&o, 2, &mut state).unwrap();
    assert!(s.has_permission("settings:read", "test"));
    assert!(!s.has_permission("settings:write", "test"));
}

#[test]
fn get_and_get_batch() {
    let mut state = SettingsSharedData::new();
    let o = origin("uds", &[]);
    let s = SettingsService::create(&o, 1, &mut state).unwrap();
    let (_, _) = s.set(&mut state, &vec![setting("a", "1"), setting("b", "true"), setting("a", "2")]);
    assert_eq!(state.db.count(), 2);
    match s.get(&state, "a".to_string()) {
        SettingsResponse::GetSuccess(v) => assert_eq!(v.value.as_str(), "2"),
        other => panic!("unexpected {:?}", other),
    }
    match s.get(&state, "zz".to_string()) {
        SettingsResponse::GetError(n, GetErrorReason::NonExistingSetting) => assert_eq!(n, "zz"),
        other => panic!("unexpected {:?}", other),
    }
    match s.get_batch(&state, &vec!["b".to_string(), "zz".to_string(), "a".to_string()]) {
        SettingsResponse::GetBatchSuccess(v) => {
            let names: Vec<&str> = v.iter().map(|x| x.name.as_str()).collect();
            assert_eq!(names, vec!["b", "a"]);
        }
        other => panic!("unexpected {:?}", other),
    }
}

#[test]
fn observers_are_notified_and_released() {
    let mut state = SettingsSharedData::new();
    let o = origin("uds", &[]);
    let writer = SettingsService::create(&o, 1, &mut state).unwrap();
    let mut watcher = SettingsService::create(&o, 2, &mut state).unwrap();
    let object = match watcher.add_observer(&mut state, "x".to_string()) {
        SettingsResponse::AddObserverSuccess(obj) => obj,
        other => panic!("unexpected {:?}", other),
    };
    let x = setting("x", "1");
    let (_, events) = writer.set(&mut state, &vec![x.duplicate()]);
    let to_watcher: Vec<&Delivery> = events
        .iter()
        .filter(|d| d.session == 2 && d.message.object == object)
        .collect();
    assert_eq!(to_watcher.len(), 1);
    assert_eq!(to_watcher[0].message.kind, MessageType::Event);
    assert_eq!(to_watcher[0].message.content, encode_change_event(&x));
    // every session's dispatcher hears of the change too
    assert_eq!(events.iter().filter(|d| d.message.object == 0).count(), 2);

    assert!(watcher.release_object(&mut state, object));
    assert!(!watcher.release_object(&mut state, object));
    let (_, events) = writer.set(&mut state, &vec![x]);
    assert_eq!(events.iter().filter(|d| d.message.object == object).count(), 0);
    assert!(matches!(
        watcher.remove_observer(&mut state, "x".to_string(), object),
        SettingsResponse::RemoveObserverError
    ));
}

#[test]
fn teardown_unregisters() {
    let mut state = SettingsSharedData::new();
    let o = origin("uds", &[]);
    let writer = SettingsService::create(&o, 1, &mut state).unwrap();
    let mut watcher = SettingsService::create(&o, 2, &mut state).unwrap();
    assert!(matches!(
        watcher.add_observer(&mut state, "x".to_string()),
        SettingsResponse::AddObserverSuccess(_)
    ));
    watcher.teardown(&mut state);
    let (_, events) = writer.set(&mut state, &vec![setting("x", "3")]);
    assert_eq!(events.len(), 1);
    assert_eq!(events[0].session, 1);
}

#[test]
fn undecodable_request_is_dropped() {
    let mut state = SettingsSharedData::new();
    let o = origin("uds", &[]);
    let mut s = SettingsService::create(&o, 1, &mut state).unwrap();
    let m = BaseMessage { service: SETTINGS_SERVICE, object: 0, kind: MessageType::Request, content: vec![42] };
    assert!(s.on_request(&mut state, &m).is_empty());
    let _ = encode_message(&m);
}

#[test]
fn responses_and_events_round_trip() {
    let answers = vec![
        SettingsResponse::ClearSuccess,
        SettingsResponse::GetSuccess(setting("x", "{\"a\":1}")),
        SettingsResponse::GetError("zz".to_string(), GetErrorReason::UnknownError),
        SettingsResponse::GetBatchSuccess(vec![setting("a", "1"), setting("b", "null")]),
        SettingsResponse::AddObserverSuccess(70000),
        SettingsResponse::ReleaseObjectError,
        SettingsResponse::PermissionError("settings:read".to_string(), "get settings".to_string()),
    ];
    for a in &answers {
        let bytes = encode_response(a);
        let back = decode_response(&bytes).unwrap();
        assert_eq!(encode_response(&back), bytes);
        assert_eq!(format!("{:?}", back), format!("{:?}", a));
    }
    assert_eq!(decode_response(&[15]).unwrap_err(), CodecError::InvalidTag);
    assert_eq!(decode_response(&[3, 0, 2]).unwrap_err(), CodecError::InvalidTag);
    assert_eq!(decode_response(&[4, 4]).unwrap_err(), CodecError::TrailingBytes);

    let x = setting("x", "[1,2]");
    let back = decode_change_event(&encode_change_event(&x)).unwrap();
    assert_eq!(back.name, "x");
    assert_eq!(back.value.as_str(), "[1,2]");
    assert_eq!(decode_change_event(&[1]).unwrap_err(), CodecError::InvalidTag);
}

#[test]
fn observer_objects_are_distinct_and_released_alone() {
    let mut state = SettingsSharedData::new();
    let o = origin("uds", &[]);
    let mut s = SettingsService::create(&o, 1, &mut state).unwrap();
    let a = match s.add_observer(&mut state, "x".to_string()) {
        SettingsResponse::AddObserverSuccess(obj) => obj,
        other => panic!("unexpected {:?}", other),
    };
    let b = match s.add_observer(&mut state, "x".to_string()) {
        SettingsResponse::AddObserverSuccess(obj) => obj,
        other => panic!("unexpected {:?}", other),
    };
    assert_ne!(a, b);
    assert!(s.release_object(&mut state, a));
    assert!(matches!(
        s.remove_observer(&mut state, "x".to_string(), b),
        SettingsResponse::RemoveObserverSuccess
    ));
    assert!(matches!(
        s.remove_observer(&mut state, "x".to_string(), a),
        SettingsResponse::RemoveObserverError
    ));
}
