use channel_hub::admin::{AddRoleInput, AdminMutations};
use channel_hub::bridge::{Delivery, SubscriptionBridge};
use channel_hub::envelope::{decode, encode, Channel, EventEnvelope, ObjectType, Operation, Stat, SyncEvent};
use channel_hub::guards::{AuthError, Predicate};
use channel_hub::models::UserEntity;
use channel_hub::publish::{
    publish_event, user_snapshot, ChannelMutations, CreateArgs, CreateChannelInput, PublishError,
    SendChannelMessageInput, SyncMutations,
};
use channel_hub::roles::Role;
use channel_hub::publish::{CreateLinkInput, LinkMutations};
use channel_hub::subscriptions::{ChannelSubscriptions, LinkSubscriptions, ListenError, SyncSubscriptions};

fn person(name: &str, roles: Vec<Role>) -> UserEntity {
    let mut u = UserEntity::from_parts(
        format!("id-{}", name),
        name.to_string(),
        format!("{}@example.org", name),
        String::new(),
        10,
    );
    u.roles = roles;
    u
}

fn channel(id: &str) -> Channel {
    Channel::new(id.to_string(), "general".to_string(), "talk".to_string(), true, 100)
}

fn hello() -> SendChannelMessageInput {
    SendChannelMessageInput { message: "hello".to_string(), channel: "c1".to_string() }
}

#[test]
fn user_is_forbidden_until_upgraded_then_listener_receives() {
    let root = person("root", vec![Role::Root]);
    let mut caller = person("bob", vec![Role::User]);
    let mut bridge = SubscriptionBridge::new(16);
    let listener = person("eve", vec![Role::User]);
    let (lid, _) = ChannelSubscriptions.listen_channel(&mut bridge, Some(&listener), "c1".to_string()).ok().unwrap();
    bridge.on_subscribed(&"c1".to_string());

    let event = ChannelMutations
        .send_message_to_channel(Some(&caller), hello(), Some(channel("c1")), "m1".to_string(), 500)
        .ok()
        .unwrap()
        .event;
    match publish_event(Some(&caller), Predicate::HasRole(Role::Admin), "c1".to_string(), event) {
        Err(PublishError::Unauthorized(AuthError::Forbidden { required, held })) => {
            assert_eq!(required, Role::Admin);
            assert_eq!(held, vec![Role::User]);
        }
        _ => panic!("expected Forbidden"),
    }

    let grant = AddRoleInput { name_or_id: "bob".to_string(), role: Role::Admin };
    assert!(AdminMutations.add_role(Some(&root), &grant, &mut caller).is_ok());
    let event = ChannelMutations
        .send_message_to_channel(Some(&caller), hello(), Some(channel("c1")), "m1".to_string(), 500)
        .ok()
        .unwrap()
        .event;
    let sent = encode(&event);
    let out = publish_event(Some(&caller), Predicate::HasRole(Role::Admin), "c1".to_string(), event).ok().unwrap();
    assert_eq!(out.key, "c1");
    assert_eq!(out.payload, sent);

    match bridge.on_message(&out.key, &out.payload) {
        Delivery::Deliver { envelope, receivers, .. } => {
            assert_eq!(receivers, vec![lid]);
            assert_eq!(encode(&envelope), sent);
            match envelope {
                EventEnvelope::Message(m) => {
                    assert_eq!(m.message, "hello");
                    assert_eq!(m.send_from.name, "bob");
                    assert_eq!(m.send_from.roles, vec![Role::User, Role::Admin]);
                    assert_eq!(m.send_to.id, "c1");
                    assert_eq!(m.send_when, 500);
                }
                _ => panic!("expected a chat message"),
            }
        }
        Delivery::Dropped => panic!("expected a delivery"),
    }
}

#[test]
fn sending_needs_an_identity_and_a_channel() {
    assert!(matches!(
        ChannelMutations.send_message_to_channel(None, hello(), Some(channel("c1")), "m".to_string(), 1),
        Err(PublishError::Unauthorized(AuthError::Unauthenticated))
    ));
    let u = person("ann", vec![]);
    assert!(matches!(
        ChannelMutations.send_message_to_channel(Some(&u), hello(), None, "m".to_string(), 1),
        Err(PublishError::UnknownChannel)
    ));
    assert!(matches!(
        ChannelMutations.send_message_to_channel(Some(&u), hello(), Some(channel("")), "m".to_string(), 1),
        Err(PublishError::EmptyKey)
    ));
}

#[test]
fn sent_message_carries_the_sender_snapshot() {
    let u = person("ann", vec![Role::Admin]);
    let out = ChannelMutations
        .send_message_to_channel(Some(&u), hello(), Some(channel("c9")), "m7".to_string(), 42)
        .ok()
        .unwrap();
    assert_eq!(out.key, "c9");
    assert_eq!(out.payload, encode(&out.event));
    let snap = user_snapshot(&u);
    assert_eq!(snap.email_address, "ann@example.org");
    match decode(&out.payload) {
        Ok(EventEnvelope::Message(m)) => {
            assert_eq!(m.id, "m7");
            assert_eq!(m.send_from.id, snap.id);
            assert_eq!(m.send_to.name, "general");
        }
        _ => panic!("expected a chat message"),
    }
}

#[test]
fn channel_creation_needs_an_identity() {
    let input = CreateChannelInput { name: "room".to_string(), description: "x".to_string(), public: false };
    assert!(matches!(
        ChannelMutations.create_channel(None, input, "c2".to_string(), 7),
        Err(AuthError::Unauthenticated)
    ));
    let u = person("ann", vec![]);
    let input = CreateChannelInput { name: "room".to_string(), description: "x".to_string(), public: false };
    let c = ChannelMutations.create_channel(Some(&u), input, "c2".to_string(), 7).ok().unwrap();
    assert_eq!(c.id, "c2");
    assert_eq!(c.name, "room");
    assert!(!c.public);
    assert_eq!((c.when_created, c.last_publish, c.last_subscribe), (7, 7, 7));
}

fn args(kind: ObjectType, ext: Option<&str>) -> CreateArgs {
    CreateArgs {
        path: "/notes".to_string(),
        name: "notes".to_string(),
        extension: ext.map(|e| e.to_string()),
        object_type: kind,
        stat: Some(Stat { ctime: 1, mtime: 2, size: 3 }),
    }
}

#[test]
fn file_announcement_has_its_basename() {
    let u = person("ann", vec![]);
    let out = SyncMutations.create_file_or_folder(Some(&u), "vault".to_string(), args(ObjectType::File, Some("md"))).ok().unwrap();
    assert_eq!(out.key, "vault");
    match decode(&out.payload) {
        Ok(EventEnvelope::Sync(SyncEvent::Create(m))) => {
            assert_eq!(m.operation_type, ObjectType::File);
            match m.operation {
                Operation::File(f) => {
                    assert_eq!(f.basename, "notes.md");
                    assert_eq!(f.extension, "md");
                    assert_eq!(f.path, "/notes");
                    assert_eq!(f.stat, Some(Stat { ctime: 1, mtime: 2, size: 3 }));
                }
                _ => panic!("expected a file"),
            }
        }
        _ => panic!("expected a create event"),
    }
}

#[test]
fn folder_announcement_uses_its_name() {
    let u = person("ann", vec![]);
    let out = SyncMutations.create_file_or_folder(Some(&u), "vault".to_string(), args(ObjectType::Folder, None)).ok().unwrap();
    match out.event {
        EventEnvelope::Sync(SyncEvent::Create(m)) => match m.operation {
            Operation::Path(p) => assert_eq!(p.basename, "notes"),
            _ => panic!("expected a folder"),
        },
        _ => panic!("expected a create event"),
    }
}

#[test]
fn file_without_extension_is_refused() {
    let u = person("ann", vec![]);
    assert!(matches!(
        SyncMutations.create_file_or_folder(Some(&u), "vault".to_string(), args(ObjectType::File, None)),
        Err(PublishError::MissingExtension)
    ));
    assert!(matches!(
        SyncMutations.create_file_or_folder(Some(&u), String::new(), args(ObjectType::Folder, None)),
        Err(PublishError::EmptyKey)
    ));
    assert!(matches!(
        SyncMutations.create_file_or_folder(None, "vault".to_string(), args(ObjectType::Folder, None)),
        Err(PublishError::Unauthorized(AuthError::Unauthenticated))
    ));
}

#[test]
fn listening_needs_an_identity() {
    let mut bridge = SubscriptionBridge::new(4);
    assert!(matches!(
        SyncSubscriptions.listen_sync_events(&mut bridge, None, "vault".to_string()),
        Err(ListenError::Unauthorized(AuthError::Unauthenticated))
    ));
    assert_eq!(bridge.listener_count(), 0);
    let u = person("ann", vec![]);
    assert!(SyncSubscriptions.listen_sync_events(&mut bridge, Some(&u), "vault".to_string()).is_ok());
    assert_eq!(bridge.listener_count(), 1);
}

#[test]
fn shared_link_goes_to_the_link_channel() {
    let u = person("ann", vec![]);
    let input = CreateLinkInput { url: "https://example.org".to_string(), label: "ex".to_string() };
    let out = LinkMutations.insert_link(Some(&u), "l1".to_string(), input).ok().unwrap();
    assert_eq!(out.key, "link_channel");
    assert_eq!(
        String::from_utf8(out.payload.clone()).unwrap(),
        r#"{"Link":{"id":"l1","url":"https://example.org","label":"ex"}}"#
    );
    let mut bridge = SubscriptionBridge::new(4);
    let (id, cmd) = LinkSubscriptions.link_stream(&mut bridge, Some(&u)).ok().unwrap();
    assert!(matches!(cmd, Some(channel_hub::bridge::BrokerCommand::Subscribe(k)) if k == "link_channel"));
    match bridge.on_message(&out.key, &out.payload) {
        Delivery::Deliver { envelope: EventEnvelope::Link(l), receivers, .. } => {
            assert_eq!(receivers, vec![id]);
            assert_eq!(l.url, "https://example.org");
        }
        _ => panic!("expected a link"),
    }
    let input = CreateLinkInput { url: "u".to_string(), label: "l".to_string() };
    assert!(matches!(
        LinkMutations.insert_link(None, "l2".to_string(), input),
        Err(PublishError::Unauthorized(AuthError::Unauthenticated))
    ));
}
