use sbp::sbp_string::Multipart;
use sbp::SbpString;
use sbp_settings::client::{
    after_send, answer_to_index, answer_to_read, answer_to_write, order_by_index, settle,
    settle_index, worker_step, Entry, IndexWakeup, SendStep, Wakeup, WorkerStep, RETRIES,
};
use sbp_settings::error::{Error, WriteError};
use sbp_settings::setting::{Setting, SettingKind, SettingRegistry, SettingValue};
use sbp_settings::wire::{read_request_payload, request_matches, split_multipart, write_request_payload};

fn payload(s: &str) -> SbpString<Vec<u8>, Multipart> {
    SbpString::from(s.to_string())
}

fn documented(group: &str, name: &str, kind: SettingKind) -> Setting {
    Setting {
        group: group.into(),
        name: name.into(),
        kind,
        ..Default::default()
    }
}

fn registry() -> SettingRegistry {
    SettingRegistry::new(vec![
        documented("sbp", "obs_msg_max_size", SettingKind::Integer),
        documented("surveyed_position", "broadcast", SettingKind::Boolean),
        documented("ins", "filter_vel_half_life_alpha", SettingKind::Float),
        documented("surveyed_position", "surveyed_lat", SettingKind::Double),
        documented("rtcm_out", "ant_descriptor", SettingKind::String),
        documented("frontend", "antenna_selection", SettingKind::Enum),
    ])
}

fn read_value(group: &str, name: &str, value: &str) -> Option<SettingValue> {
    let mut reg = registry();
    let reply = payload(&format!("{}\0{}\0{}\0", group, name, value));
    let entry = answer_to_read(&mut reg, group, name, &reply).unwrap().unwrap().unwrap();
    entry.value
}

#[test]
fn mock_read_setting_int() {
    assert!(matches!(read_value("sbp", "obs_msg_max_size", "10"), Some(SettingValue::Integer(10))));
}

#[test]
fn mock_read_setting_bool() {
    assert!(matches!(read_value("surveyed_position", "broadcast", "True"), Some(SettingValue::Boolean(true))));
}

#[test]
fn mock_read_setting_float() {
    let v = read_value("ins", "filter_vel_half_life_alpha", "0.1");
    assert_eq!(v, Some(SettingValue::Float("0.1".into())));
    if let Some(SettingValue::Float(t)) = v {
        assert_eq!(t.parse::<f32>().unwrap(), 0.1f32);
    }
}

#[test]
fn mock_read_setting_double() {
    assert_eq!(read_value("surveyed_position", "surveyed_lat", "0.1"), Some(SettingValue::Float("0.1".into())));
}

#[test]
fn mock_read_setting_string() {
    assert_eq!(read_value("rtcm_out", "ant_descriptor", "foo"), Some(SettingValue::String("foo".into())));
}

#[test]
fn mock_read_setting_enum() {
    assert_eq!(read_value("frontend", "antenna_selection", "Secondary"), Some(SettingValue::String("Secondary".into())));
}

// The client that sends, waits and times out runs in app/; the tests
// below check the decisions it takes from the library.

#[test]
fn test_should_retry() {
    // five failed sends, then the request goes out and the device replies
    let mut tries = 0usize;
    for _ in 0..5 {
        match after_send(tries, Err("error".to_string())) {
            SendStep::Retry(t) => tries = t,
            _ => panic!("the client must send again"),
        }
    }
    assert!(matches!(after_send(tries, Ok(())), SendStep::Sent));
    assert!(matches!(read_value("sbp", "obs_msg_max_size", "10"), Some(SettingValue::Integer(10))));
}

#[test]
fn read_setting_timeout() {
    let response: Result<Option<Entry>, Error> = settle(Wakeup::TimedOut);
    assert!(matches!(response, Err(Error::TimedOut)));
}

#[test]
fn read_setting_cancel() {
    let response: Result<Option<Entry>, Error> = settle(Wakeup::Canceled);
    assert!(matches!(response, Err(Error::Canceled)));
}

#[test]
fn reply_without_value_reads_as_none() {
    let mut reg = registry();
    let reply = payload("sbp\0obs_msg_max_size\0");
    assert!(matches!(answer_to_read(&mut reg, "sbp", "obs_msg_max_size", &reply), Some(Ok(None))));
    let reply = payload("sbp\0obs_msg_max_size\0abc\0");
    assert!(matches!(answer_to_read(&mut reg, "sbp", "obs_msg_max_size", &reply), Some(Ok(None))));
    let reply = payload("sbp\0obs_msg_max_size\01\0x\0");
    assert!(matches!(answer_to_read(&mut reg, "sbp", "obs_msg_max_size", &reply), Some(Err(Error::ParseError))));
}

#[test]
fn replies_for_other_settings_are_ignored() {
    let mut reg = registry();
    let reply = payload("sbp\0other\010\0");
    assert!(answer_to_read(&mut reg, "sbp", "obs_msg_max_size", &reply).is_none());
    assert!(answer_to_write(&mut reg, "sbp", "obs_msg_max_size", 0, &reply).is_none());
    assert!(answer_to_read(&mut reg, "sb", "obs_msg_max_size", &payload("sbp\0obs_msg_max_size\0")).is_none());
    assert!(answer_to_index(&mut reg, 3, 4, &reply).is_none());
}

#[test]
fn reply_to_write() {
    let mut reg = registry();
    let reply = payload("sbp\0obs_msg_max_size\0255\0");
    let entry = answer_to_write(&mut reg, "sbp", "obs_msg_max_size", 0, &reply).unwrap().unwrap();
    assert_eq!(entry.value, Some(SettingValue::Integer(255)));
    assert_eq!(entry.setting.kind, SettingKind::Integer);
    let refused = answer_to_write(&mut reg, "sbp", "obs_msg_max_size", 4, &reply).unwrap();
    assert!(matches!(refused, Err(Error::WriteError(WriteError::ReadOnly))));
    let short = payload("sbp\0obs_msg_max_size\0");
    assert!(matches!(Entry::from_write_reply(&mut reg, 0, &short), Err(Error::ParseError)));
}

#[test]
fn reply_to_read_by_index() {
    let mut reg = registry();
    let reply = payload("frontend\0antenna_selection\0Primary\0enum:Primary,Secondary\0");
    let entry = answer_to_index(&mut reg, 7, 7, &reply).unwrap().unwrap();
    assert_eq!(entry.value, Some(SettingValue::String("Primary".into())));
    assert_eq!(entry.setting.enumerated_possible_values, Some("Primary,Secondary".into()));
    let reply = payload("frontend\0antenna_selection\0Primary\0\0");
    let entry = answer_to_index(&mut reg, 7, 7, &reply).unwrap().unwrap();
    assert_eq!(entry.setting.enumerated_possible_values, None);
    let reply = payload("sbp\0obs_msg_max_size\010\0");
    let entry = Entry::from_index_reply(&mut reg, &reply).unwrap();
    assert_eq!(entry.value, Some(SettingValue::Integer(10)));
    let reply = payload("sbp\0obs_msg_max_size\0");
    assert!(matches!(Entry::from_index_reply(&mut reg, &reply), Err(Error::ParseError)));
}

#[test]
fn undocumented_settings_read_as_strings() {
    let mut reg = registry();
    let reply = payload("new\0thing\042\0");
    let entry = Entry::from_read_reply(&mut reg, &reply).unwrap();
    assert_eq!(entry.setting.group, "new");
    assert_eq!(entry.setting.name, "thing");
    assert_eq!(entry.value, Some(SettingValue::String("42".into())));
}

#[test]
fn request_payloads() {
    let req = read_request_payload("sbp", "obs_msg_max_size");
    assert_eq!(req.as_bytes(), b"sbp\0obs_msg_max_size\0");
    let req = write_request_payload("simulator", "base_ecef_z", "1.1231234");
    assert_eq!(req.as_bytes(), b"simulator\0base_ecef_z\01.1231234\0");
    let fields = split_multipart(&req);
    assert_eq!(fields, vec!["simulator".to_string(), "base_ecef_z".into(), "1.1231234".into()]);
    assert!(request_matches("simulator", "base_ecef_z", &req));
    assert!(!request_matches("simulator", "base_ecef_y", &req));
}

#[test]
fn payload_fields() {
    assert_eq!(split_multipart(&payload("")), Vec::<String>::new());
    assert_eq!(split_multipart(&payload("abc")), Vec::<String>::new());
    assert_eq!(split_multipart(&payload("a\0bc")), vec!["a".to_string()]);
    assert_eq!(split_multipart(&payload("\0\0")), vec![String::new(), String::new()]);
    let raw: SbpString<Vec<u8>, Multipart> = SbpString::from(vec![b'a', 0xff, 0, b'b', 0]);
    assert_eq!(split_multipart(&raw), vec!["a\u{fffd}".to_string(), "b".into()]);
}

#[test]
fn waiting_ends() {
    assert!(matches!(settle::<u8>(Wakeup::Reply(Ok(3))), Ok(3)));
    assert!(matches!(settle::<u8>(Wakeup::TimedOut), Err(Error::TimedOut)));
    assert!(matches!(settle::<u8>(Wakeup::Canceled), Err(Error::Canceled)));
    assert!(matches!(settle_index(IndexWakeup::Done), Ok(None)));
    assert!(matches!(settle_index(IndexWakeup::TimedOut), Err(Error::TimedOut)));
    assert!(matches!(settle_index(IndexWakeup::Canceled), Err(Error::Canceled)));
    assert!(matches!(settle_index(IndexWakeup::Reply(Err(Error::ParseError))), Err(Error::ParseError)));
}

#[test]
fn failed_sends_are_tried_six_times() {
    let mut tries = 0usize;
    let mut attempts = 0;
    let gave_up = loop {
        attempts += 1;
        match after_send(tries, Err("broken pipe".to_string())) {
            SendStep::Retry(t) => tries = t,
            SendStep::GaveUp(e) => break e,
            SendStep::Sent => panic!("nothing was sent"),
        }
    };
    assert_eq!(attempts, RETRIES + 1);
    assert!(matches!(gave_up, Error::SenderError(ref s) if s == "broken pipe"));
    assert!(matches!(after_send(2, Ok(())), SendStep::Sent));
    assert!(matches!(after_send(RETRIES, Ok(())), SendStep::Sent));
}

#[test]
fn workers_stop_at_the_end_or_on_timeout() {
    let mut reg = registry();
    let e = Entry::from_read_reply(&mut reg, &payload("sbp\0obs_msg_max_size\010\0")).unwrap();
    assert!(matches!(worker_step(Ok(Some(e))), WorkerStep::Keep(_)));
    assert!(matches!(worker_step(Ok(None)), WorkerStep::Finish));
    assert!(matches!(worker_step(Err(Error::TimedOut)), WorkerStep::NoteAndStop(Error::TimedOut)));
    assert!(matches!(worker_step(Err(Error::Canceled)), WorkerStep::NoteAndStop(Error::Canceled)));
    assert!(matches!(worker_step(Err(Error::ParseError)), WorkerStep::Note(Error::ParseError)));
}

#[test]
fn full_read_results_in_index_order() {
    let items = vec![(5u16, "e"), (1, "a"), (3, "c1"), (0, "z"), (3, "c2"), (2, "b"), (3, "c3")];
    assert_eq!(order_by_index(items), vec!["z", "a", "b", "c1", "c2", "c3", "e"]);
    assert_eq!(order_by_index(Vec::<(u16, u8)>::new()), Vec::<u8>::new());
}

#[test]
fn write_error_codes() {
    let expected = [
        (1u8, WriteError::ValueRejected, "setting value invalid"),
        (2, WriteError::SettingRejected, "setting does not exist"),
        (3, WriteError::ParseFailed, "could not parse setting value "),
        (4, WriteError::ReadOnly, "setting is read only"),
        (5, WriteError::ModifyDisabled, "setting is not modifiable"),
        (6, WriteError::ServiceFailed, "system failure during setting"),
        (7, WriteError::Timeout, "request wasn't replied in time"),
        (0, WriteError::Unknown, "unknown settings write response"),
        (8, WriteError::Unknown, "unknown settings write response"),
        (255, WriteError::Unknown, "unknown settings write response"),
    ];
    for (code, err, text) in expected {
        assert_eq!(WriteError::from(code), err);
        assert_eq!(err.to_string(), text);
        assert_eq!(Error::from(err).to_string(), text);
    }
    assert_eq!(Error::ParseError.to_string(), "failed to parse setting");
    assert_eq!(Error::TimedOut.to_string(), "timed out");
    assert_eq!(Error::Canceled.to_string(), "canceled");
    assert_eq!(Error::SenderError("boom".into()).to_string(), "boom");
}

#[test]
fn a_send_that_fails_k_times_is_made_k_plus_one_times() {
    for k in 0..9usize {
        let mut tries = 0usize;
        let mut calls = 0usize;
        let result = loop {
            calls += 1;
            let outcome = if calls > k { Ok(()) } else { Err(format!("failure {}", calls)) };
            match after_send(tries, outcome) {
                SendStep::Sent => break Ok(()),
                SendStep::Retry(t) => tries = t,
                SendStep::GaveUp(e) => break Err(e),
            }
        };
        assert_eq!(calls, std::cmp::min(k + 1, RETRIES + 1));
        match result {
            Ok(()) => assert!(k <= RETRIES),
            Err(Error::SenderError(text)) => {
                assert!(k > RETRIES);
                assert_eq!(text, format!("failure {}", RETRIES + 1));
            }
            Err(_) => panic!("unexpected error"),
        }
    }
}

#[test]
fn distinct_indices_come_out_ascending() {
    let items = vec![(9u16, 'j'), (0, 'a'), (4, 'e'), (2, 'c'), (1, 'b')];
    assert_eq!(order_by_index(items), vec!['a', 'b', 'c', 'e', 'j']);
}
