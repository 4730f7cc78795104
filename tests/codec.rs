use channel_hub::envelope::{
    decode, encode, Channel, ChannelMessage, DecodeError, EventEnvelope, FileOperation, ObjectType, Operation,
    PathOperation, Stat, SyncEvent, SyncMessage,
};
use channel_hub::models::User;
use channel_hub::roles::Role;

fn channel() -> Channel {
    Channel {
        id: "c1".to_string(),
        name: "general".to_string(),
        description: "d".to_string(),
        public: true,
        when_created: 1,
        last_publish: 2,
        last_subscribe: 3,
    }
}

fn user() -> User {
    User {
        id: "u1".to_string(),
        name: "ann".to_string(),
        email_address: "a@x.io".to_string(),
        email_verified: true,
        roles: vec![Role::Admin],
        when_created: 5,
        last_login: 6,
    }
}

fn message(text: &str) -> EventEnvelope {
    EventEnvelope::Message(ChannelMessage {
        id: "m1".to_string(),
        message: text.to_string(),
        send_when: -7,
        send_from: user(),
        send_to: channel(),
    })
}

fn file_event(stat: Option<Stat>) -> EventEnvelope {
    EventEnvelope::Sync(SyncEvent::Create(SyncMessage {
        operation_type: ObjectType::File,
        operation: Operation::File(FileOperation {
            basename: "a.txt".to_string(),
            name: "a".to_string(),
            extension: "txt".to_string(),
            path: "/p".to_string(),
            stat,
        }),
    }))
}

fn folder_rename() -> EventEnvelope {
    EventEnvelope::Sync(SyncEvent::Rename(SyncMessage {
        operation_type: ObjectType::Folder,
        operation: Operation::Path(PathOperation {
            basename: "docs".to_string(),
            name: "docs".to_string(),
            path: "/".to_string(),
            stat: Some(Stat { ctime: 0, mtime: u64::MAX, size: 42 }),
        }),
    }))
}

fn text(e: &EventEnvelope) -> String {
    String::from_utf8(encode(e)).unwrap()
}

#[test]
fn message_wire_form() {
    let expected = [
        r#"{"Message":{"id":"m1","message":"hi","send_when":-7,"#,
        r#""send_from":{"id":"u1","name":"ann","email_address":"a@x.io","email_verified":true,"roles":["Admin"],"when_created":5,"last_login":6},"#,
        r#""send_to":{"id":"c1","name":"general","description":"d","public":true,"when_created":1,"last_publish":2,"last_subscribe":3}}}"#,
    ]
    .join("");
    assert_eq!(text(&message("hi")), expected);
}

#[test]
fn sync_wire_form() {
    let expected = [
        r#"{"Sync":{"Create":{"operation_type":"File","operation":{"File":{"basename":"a.txt","name":"a","#,
        r#""extension":"txt","path":"/p","stat":null}}}}}"#,
    ]
    .join("");
    assert_eq!(text(&file_event(None)), expected);
    let with_stat = text(&file_event(Some(Stat { ctime: 1, mtime: 2, size: 3 })));
    assert!(with_stat.contains(r#""stat":{"ctime":1,"mtime":2,"size":3}"#));
}

#[test]
fn text_is_escaped() {
    let t = text(&message("say \"hi\" \\ bye"));
    assert!(t.contains(r#""message":"say \"hi\" \\ bye""#));
}

#[test]
fn round_trip_restores_every_kind() {
    let samples = vec![
        message("hi"),
        message(""),
        message("quote \" backslash \\ and ünïcödé ✓"),
        file_event(None),
        file_event(Some(Stat { ctime: 1.5f64.to_bits(), mtime: 2.25f64.to_bits(), size: 4096 })),
        folder_rename(),
    ];
    for e in samples {
        let bytes = encode(&e);
        let d = decode(&bytes).ok().unwrap();
        assert_eq!(encode(&d), bytes);
    }
}

#[test]
fn round_trip_keeps_fields() {
    let bytes = encode(&folder_rename());
    match decode(&bytes) {
        Ok(EventEnvelope::Sync(SyncEvent::Rename(m))) => {
            assert_eq!(m.operation_type, ObjectType::Folder);
            match m.operation {
                Operation::Path(p) => {
                    assert_eq!(p.name, "docs");
                    assert_eq!(p.stat, Some(Stat { ctime: 0, mtime: u64::MAX, size: 42 }));
                }
                _ => panic!("expected a folder"),
            }
        }
        _ => panic!("expected a rename"),
    }
    let extremes = EventEnvelope::Message(ChannelMessage {
        id: String::new(),
        message: String::new(),
        send_when: i64::MIN,
        send_from: User { roles: vec![Role::Root, Role::User, Role::Admin], ..user() },
        send_to: Channel { when_created: i64::MAX, public: false, ..channel() },
    });
    match decode(&encode(&extremes)) {
        Ok(EventEnvelope::Message(m)) => {
            assert_eq!(m.send_when, i64::MIN);
            assert_eq!(m.send_from.roles, vec![Role::Root, Role::User, Role::Admin]);
            assert_eq!(m.send_to.when_created, i64::MAX);
            assert!(!m.send_to.public);
        }
        _ => panic!("expected a message"),
    }
}

#[test]
fn float_bits_pass_through() {
    let ctime = 1_700_000_000_123.456f64;
    let e = file_event(Some(Stat { ctime: ctime.to_bits(), mtime: (-0.0f64).to_bits(), size: 1 }));
    match decode(&encode(&e)) {
        Ok(EventEnvelope::Sync(SyncEvent::Create(m))) => match m.operation {
            Operation::File(f) => {
                let s = f.stat.unwrap();
                assert_eq!(f64::from_bits(s.ctime), ctime);
                assert_eq!(s.mtime, (-0.0f64).to_bits());
            }
            _ => panic!("expected a file"),
        },
        _ => panic!("expected a create"),
    }
}

#[test]
fn malformed_payloads_are_errors() {
    let good = text(&message("hi"));
    let cases: Vec<String> = vec![
        String::new(),
        "not json".to_string(),
        "{}".to_string(),
        format!("{} ", good),
        good[..good.len() - 1].to_string(),
        good.replace("\"Message\"", "\"Massage\""),
        good.replace("-7", "-07"),
        good.replace("-7", "-0"),
        good.replace("\"send_when\":-7", "\"send_when\":-7.5"),
        good.replace("\"roles\":[\"Admin\"]", "\"roles\":[\"Boss\"]"),
        good.replace("true", "TRUE"),
        good.replace("\"send_when\"", "\"sent_when\""),
        text(&file_event(None)).replace("null", "nul"),
        r#"{"Sync":{"Create":{"operation_type":"File","operation":{"Path":{}}}}}"#.to_string(),
    ];
    for c in cases {
        assert_eq!(decode(&c.into_bytes()).err(), Some(DecodeError::Malformed));
    }
    assert_eq!(decode(&vec![0xff, 0xfe]).err(), Some(DecodeError::Malformed));
}

#[test]
fn numbers_out_of_range_are_errors() {
    let good = text(&message("hi"));
    let too_big = good.replace("\"send_when\":-7", "\"send_when\":9223372036854775808");
    assert!(decode(&too_big.into_bytes()).is_err());
    let max = good.replace("\"send_when\":-7", "\"send_when\":9223372036854775807");
    assert!(decode(&max.into_bytes()).is_ok());
    let min = good.replace("\"send_when\":-7", "\"send_when\":-9223372036854775808");
    assert!(decode(&min.into_bytes()).is_ok());
    let huge = good.replace("\"send_when\":-7", "\"send_when\":123456789012345678901234");
    assert!(decode(&huge.into_bytes()).is_err());
}

#[test]
fn invalid_utf8_inside_a_string_is_an_error() {
    let mut bytes = encode(&message("ab"));
    let pos = bytes.windows(4).position(|w| w == b"\"ab\"").unwrap();
    bytes[pos + 1] = 0xc3;
    assert!(decode(&bytes).is_err());
}

#[test]
fn sync_type_must_agree_with_operation() {
    let mismatched = EventEnvelope::Sync(SyncEvent::Create(SyncMessage {
        operation_type: ObjectType::Folder,
        operation: Operation::File(FileOperation {
            basename: "a.txt".to_string(),
            name: "a".to_string(),
            extension: "txt".to_string(),
            path: "/p".to_string(),
            stat: None,
        }),
    }));
    assert_eq!(decode(&encode(&mismatched)).err(), Some(DecodeError::Malformed));
    let mismatched_folder = EventEnvelope::Sync(SyncEvent::Rename(SyncMessage {
        operation_type: ObjectType::File,
        operation: Operation::Path(PathOperation {
            basename: "d".to_string(),
            name: "d".to_string(),
            path: "/".to_string(),
            stat: None,
        }),
    }));
    assert!(decode(&encode(&mismatched_folder)).is_err());
    assert!(decode(&encode(&file_event(None))).is_ok());
}
