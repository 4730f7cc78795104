use channel_hub::bridge::{BrokerCommand, Delivery, Phase, SubscriptionBridge};
use channel_hub::envelope::{encode, Channel, ChannelMessage, EventEnvelope};
use channel_hub::models::User;

fn key(s: &str) -> String {
    s.to_string()
}

fn payload(text: &str) -> Vec<u8> {
    encode(&EventEnvelope::Message(ChannelMessage {
        id: "m".to_string(),
        message: text.to_string(),
        send_when: 1,
        send_from: User {
            id: "u".to_string(),
            name: "n".to_string(),
            email_address: "e".to_string(),
            email_verified: false,
            roles: vec![],
            when_created: 0,
            last_login: 0,
        },
        send_to: Channel {
            id: "k".to_string(),
            name: "k".to_string(),
            description: String::new(),
            public: true,
            when_created: 0,
            last_publish: 0,
            last_subscribe: 0,
        },
    }))
}

fn is_subscribe(c: &Option<BrokerCommand>, k: &str) -> bool {
    matches!(c, Some(BrokerCommand::Subscribe(x)) if x == k)
}

fn is_unsubscribe(c: &Option<BrokerCommand>, k: &str) -> bool {
    matches!(c, Some(BrokerCommand::Unsubscribe(x)) if x == k)
}

#[test]
fn first_listener_subscribes_and_others_join() {
    let mut b = SubscriptionBridge::new(8);
    assert_eq!(b.phase(&key("k")), None);
    let (a, c1) = b.listen(key("k")).unwrap();
    assert!(is_subscribe(&c1, "k"));
    assert_eq!(b.phase(&key("k")), Some(Phase::Subscribing));
    let (b2, c2) = b.listen(key("k")).unwrap();
    assert!(c2.is_none());
    assert_ne!(a, b2);
    b.on_subscribed(&key("k"));
    assert_eq!(b.phase(&key("k")), Some(Phase::Active));
    let (_, c3) = b.listen(key("k")).unwrap();
    assert!(c3.is_none());
    assert_eq!(b.listener_count(), 3);
}

#[test]
fn fan_out_reaches_each_listener_once() {
    let mut b = SubscriptionBridge::new(8);
    let (l1, _) = b.listen(key("k")).unwrap();
    let (other, _) = b.listen(key("other")).unwrap();
    let (l2, _) = b.listen(key("k")).unwrap();
    let (l3, _) = b.listen(key("k")).unwrap();
    b.on_subscribed(&key("k"));
    match b.on_message(&key("k"), &payload("hello")) {
        Delivery::Deliver { envelope, receivers, overflowing } => {
            assert_eq!(receivers, vec![l1, l2, l3]);
            assert!(!receivers.contains(&other));
            assert!(overflowing.is_empty());
            assert_eq!(encode(&envelope), payload("hello"));
        }
        Delivery::Dropped => panic!("expected a delivery"),
    }
}

#[test]
fn slow_listener_overflows() {
    let mut b = SubscriptionBridge::new(1);
    let (fast, _) = b.listen(key("k")).unwrap();
    let (slow, _) = b.listen(key("k")).unwrap();
    let (r1, _) = b.fan_out(&key("k"));
    assert_eq!(r1, vec![fast, slow]);
    assert!(b.consumed(fast));
    assert!(!b.consumed(fast));
    let (r2, o2) = b.fan_out(&key("k"));
    assert_eq!(r2, vec![fast]);
    assert_eq!(o2, vec![slow]);
    assert!(b.cancel(slow).is_none());
    let (r3, o3) = b.fan_out(&key("k"));
    assert!(r3.is_empty());
    assert_eq!(o3, vec![fast]);
}

#[test]
fn last_cancel_releases_and_listen_restarts() {
    let mut b = SubscriptionBridge::new(4);
    let (a, _) = b.listen(key("k")).unwrap();
    let (c, _) = b.listen(key("k")).unwrap();
    b.on_subscribed(&key("k"));
    assert!(b.cancel(a).is_none());
    assert_eq!(b.phase(&key("k")), Some(Phase::Active));
    let released = b.cancel(c);
    assert!(is_unsubscribe(&released, "k"));
    assert_eq!(b.phase(&key("k")), Some(Phase::Unsubscribing));
    b.on_unsubscribed(&key("k"));
    assert_eq!(b.phase(&key("k")), None);
    assert_eq!(b.listener_count(), 0);
    let (_, again) = b.listen(key("k")).unwrap();
    assert!(is_subscribe(&again, "k"));
    assert_eq!(b.phase(&key("k")), Some(Phase::Subscribing));
}

#[test]
fn listen_while_releasing_subscribes_again() {
    let mut b = SubscriptionBridge::new(4);
    let (a, _) = b.listen(key("k")).unwrap();
    b.on_subscribed(&key("k"));
    assert!(is_unsubscribe(&b.cancel(a), "k"));
    let (_, cmd) = b.listen(key("k")).unwrap();
    assert!(is_subscribe(&cmd, "k"));
    // the late release acknowledgement does not undo the new subscription
    b.on_unsubscribed(&key("k"));
    assert_eq!(b.phase(&key("k")), Some(Phase::Subscribing));
    b.on_subscribed(&key("k"));
    assert_eq!(b.phase(&key("k")), Some(Phase::Active));
}

#[test]
fn unknown_listener_cancel_changes_nothing() {
    let mut b = SubscriptionBridge::new(4);
    let (_, _) = b.listen(key("k")).unwrap();
    assert!(b.cancel(99).is_none());
    assert_eq!(b.listener_count(), 1);
    assert!(!b.consumed(99));
}

#[test]
fn malformed_message_is_dropped_and_delivery_continues() {
    let mut b = SubscriptionBridge::new(4);
    let (l, _) = b.listen(key("k")).unwrap();
    b.on_subscribed(&key("k"));
    assert!(matches!(b.on_message(&key("k"), &b"{\"broken\"".to_vec()), Delivery::Dropped));
    assert!(matches!(b.on_message(&key("k"), &vec![0xff]), Delivery::Dropped));
    match b.on_message(&key("k"), &payload("after")) {
        Delivery::Deliver { receivers, .. } => assert_eq!(receivers, vec![l]),
        Delivery::Dropped => panic!("expected a delivery"),
    }
}

#[test]
fn reconnect_resubscribes_keys_with_listeners() {
    let mut b = SubscriptionBridge::new(4);
    let (a, _) = b.listen(key("a")).unwrap();
    let (_, _) = b.listen(key("b")).unwrap();
    b.on_subscribed(&key("a"));
    b.on_subscribed(&key("b"));
    assert!(is_unsubscribe(&b.cancel(a), "a"));
    let cmds = b.reconnect();
    assert_eq!(cmds.len(), 2);
    let keys: Vec<&String> = cmds
        .iter()
        .map(|c| match c {
            BrokerCommand::Subscribe(k) => k,
            BrokerCommand::Unsubscribe(k) => k,
        })
        .collect();
    assert_ne!(keys[0], keys[1]);
    assert!(cmds.iter().any(|c| matches!(c, BrokerCommand::Subscribe(k) if k == "b")));
    assert!(cmds.iter().any(|c| matches!(c, BrokerCommand::Unsubscribe(k) if k == "a")));
    assert_eq!(b.phase(&key("b")), Some(Phase::Subscribing));
    assert_eq!(b.phase(&key("a")), Some(Phase::Unsubscribing));
}

#[test]
fn failed_subscribe_ends_its_listeners() {
    let mut b = SubscriptionBridge::new(4);
    let (a, _) = b.listen(key("k")).unwrap();
    let (c, _) = b.listen(key("k")).unwrap();
    let (other, _) = b.listen(key("o")).unwrap();
    b.on_subscribed(&key("o"));
    let mut ended = b.on_subscribe_failed(&key("k"));
    ended.sort();
    assert_eq!(ended, vec![a, c]);
    assert_eq!(b.phase(&key("k")), None);
    assert_eq!(b.phase(&key("o")), Some(Phase::Active));
    assert_eq!(b.listener_count(), 1);
    assert!(b.on_subscribe_failed(&key("o")).is_empty());
    assert_eq!(b.listener_count(), 1);
    assert!(b.cancel(other).is_some());
    let (_, again) = b.listen(key("k")).unwrap();
    assert!(is_subscribe(&again, "k"));
}
