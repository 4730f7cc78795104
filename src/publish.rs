//! Turning an authorized caller's request into what goes out on the publish
//! connection: a channel key and the wire form of an event.
use vstd::prelude::*;
use vstd::string::StringExecFns;

use crate::envelope::{
    consistent, enc_envelope, encode, Channel, ChannelMessage, ChannelMessageView, ChannelView, EventEnvelope, EventEnvelopeView,
    FileOperation, FileOperationView, Link, LinkView, ObjectType, Operation, OperationView, PathOperation,
    PathOperationView, Stat, SyncEvent, SyncEventView, SyncMessage, SyncMessageView, UserView,
};
use crate::guards::{admits, check_outcome, copy_roles, require, AuthError, Predicate};
use crate::models::{User, UserEntity};
use crate::subscriptions::link_channel_key;

verus! {

/// Why nothing was published.
pub enum PublishError {
    /// The caller failed the check the operation requires.
    Unauthorized(AuthError),
    /// The channel key is empty.
    EmptyKey,
    /// The channel the message is addressed to does not exist.
    UnknownChannel,
    /// A file was described without an extension.
    MissingExtension,
    /// The broker could not be reached; the caller may retry.
    Unavailable,
}

/// A message ready for the publish connection.
pub struct Outbound {
    pub key: String,
    pub payload: Vec<u8>,
    pub event: EventEnvelope,
}

/// The public snapshot of an identity.
pub open spec fn snapshot_of(u: UserEntity) -> UserView {
    UserView {
        id: u.id@,
        name: u.name@,
        email_address: u.email_address@,
        email_verified: u.email_verified,
        roles: u.roles@,
        when_created: u.when_created,
        last_login: u.last_login,
    }
}

/// The public snapshot of `u`.
pub fn user_snapshot(u: &UserEntity) -> (r: User)
    ensures
        r@ == snapshot_of(*u),
{
    User {
        id: u.id.clone(),
        name: u.name.clone(),
        email_address: u.email_address.clone(),
        email_verified: u.email_verified,
        roles: copy_roles(&u.roles),
        when_created: u.when_created,
        last_login: u.last_login,
    }
}

/// Checks `identity` against `predicate` and, if admitted, encodes `event` for `key`.
pub fn publish_event(identity: Option<&UserEntity>, predicate: Predicate, key: String, event: EventEnvelope) -> (r: Result<Outbound, PublishError>)
    ensures
        r is Ok <==> admits(identity, predicate) && key@.len() > 0,
        r matches Ok(o) ==> o.key == key && o.event == event && o.payload@ == enc_envelope(event@),
        !admits(identity, predicate) ==> (r matches Err(PublishError::Unauthorized(e)) && check_outcome(
            identity,
            predicate,
            Err(e),
        )),
        admits(identity, predicate) && key@.len() == 0 ==> r matches Err(PublishError::EmptyKey),
{
    match require(identity, predicate) {
        Err(e) => Err(PublishError::Unauthorized(e)),
        Ok(()) => {
            if key.as_str().is_empty() {
                return Err(PublishError::EmptyKey);
            }
            let payload = encode(&event);
            Ok(Outbound { key, payload, event })
        },
    }
}

/// The chat message that `sender` sends to `channel` at `now`.
pub open spec fn message_for(id: Seq<char>, text: Seq<char>, sender: UserEntity, channel: Channel, now: i64) -> EventEnvelopeView {
    EventEnvelopeView::Message(
        ChannelMessageView {
            id,
            message: text,
            send_when: now,
            send_from: snapshot_of(sender),
            send_to: channel@,
        },
    )
}

/// A chat message to send: its text and the id of the channel it is addressed to.
pub struct SendChannelMessageInput {
    pub message: String,
    pub channel: String,
}

/// What a caller asks for when creating a channel.
pub struct CreateChannelInput {
    pub name: String,
    pub description: String,
    pub public: bool,
}

/// The channel operations.
pub struct ChannelMutations;

impl ChannelMutations {
    /// Sends `message.message` from the caller to `channel`, the result of looking up
    /// `message.channel` (`None` when there is none). The message gets `message_id`
    /// and the time `now`, and is published under the channel's id. Any
    /// authenticated caller may send.
    pub fn send_message_to_channel(
        &self,
        identity: Option<&UserEntity>,
        message: SendChannelMessageInput,
        channel: Option<Channel>,
        message_id: String,
        now: i64,
    ) -> (r: Result<Outbound, PublishError>)
        ensures
            identity is None ==> r matches Err(PublishError::Unauthorized(AuthError::Unauthenticated)),
            identity is Some && channel is None ==> r matches Err(PublishError::UnknownChannel),
            identity is Some && channel is Some ==> (r is Ok <==> channel->0.id@.len() > 0),
            identity is Some && channel is Some && channel->0.id@.len() == 0 ==> r matches Err(PublishError::EmptyKey),
            r matches Ok(o) ==> o.key@ == channel->0.id@ && o.event@ == message_for(
                message_id@,
                message.message@,
                *identity->0,
                channel->0,
                now,
            ) && o.payload@ == enc_envelope(o.event@),
    {
        let user = match identity {
            None => return Err(PublishError::Unauthorized(AuthError::Unauthenticated)),
            Some(u) => u,
        };
        let channel = match channel {
            None => return Err(PublishError::UnknownChannel),
            Some(c) => c,
        };
        let key = channel.id.clone();
        let msg = ChannelMessage {
            id: message_id,
            message: message.message,
            send_when: now,
            send_from: user_snapshot(user),
            send_to: channel,
        };
        publish_event(identity, Predicate::Authenticated, key, EventEnvelope::Message(msg))
    }

    /// Creates the channel `channel` under the id `id` at `now`. Any authenticated
    /// caller may create a channel.
    pub fn create_channel(&self, identity: Option<&UserEntity>, channel: CreateChannelInput, id: String, now: i64) -> (r: Result<Channel, AuthError>)
        ensures
            check_outcome(identity, Predicate::Authenticated, match r {
                Ok(_) => Ok(()),
                Err(e) => Err(e),
            }),
            r matches Ok(c) ==> c@ == (ChannelView {
                id: id@,
                name: channel.name@,
                description: channel.description@,
                public: channel.public,
                when_created: now,
                last_publish: now,
                last_subscribe: now,
            }),
    {
        match require(identity, Predicate::Authenticated) {
            Err(e) => Err(e),
            Ok(()) => Ok(Channel::new(id, channel.name, channel.description, channel.public, now)),
        }
    }
}

/// What a caller asks to be announced about a new file or folder.
pub struct CreateArgs {
    pub path: String,
    pub name: String,
    pub extension: Option<String>,
    pub object_type: ObjectType,
    pub stat: Option<Stat>,
}

/// The event announcing what `args` describe; `None` for a file without an extension.
pub open spec fn created_event(args: CreateArgs) -> Option<EventEnvelopeView> {
    match args.object_type {
        ObjectType::File => match args.extension {
            None => None,
            Some(ext) => Some(
                EventEnvelopeView::Sync(
                    SyncEventView::Create(
                        SyncMessageView {
                            operation_type: ObjectType::File,
                            operation: OperationView::File(
                                FileOperationView {
                                    basename: args.name@ + "."@ + ext@,
                                    name: args.name@,
                                    extension: ext@,
                                    path: args.path@,
                                    stat: args.stat,
                                },
                            ),
                        },
                    ),
                ),
            ),
        },
        ObjectType::Folder => Some(
            EventEnvelopeView::Sync(
                SyncEventView::Create(
                    SyncMessageView {
                        operation_type: ObjectType::Folder,
                        operation: OperationView::Path(
                            PathOperationView {
                                basename: args.name@,
                                name: args.name@,
                                path: args.path@,
                                stat: args.stat,
                            },
                        ),
                    },
                ),
            ),
        ),
    }
}

/// The file-system sync operations.
pub struct SyncMutations;

impl SyncMutations {
    /// Announces a new file or folder in the vault `vault_id`. Any authenticated
    /// caller may announce.
    pub fn create_file_or_folder(&self, identity: Option<&UserEntity>, vault_id: String, args: CreateArgs) -> (r: Result<Outbound, PublishError>)
        ensures
            identity is None ==> r matches Err(PublishError::Unauthorized(AuthError::Unauthenticated)),
            identity is Some && created_event(args) is None ==> r matches Err(PublishError::MissingExtension),
            identity is Some && created_event(args) is Some ==> (r is Ok <==> vault_id@.len() > 0),
            identity is Some && created_event(args) is Some && vault_id@.len() == 0 ==> r matches Err(PublishError::EmptyKey),
            r matches Ok(o) ==> o.key@ == vault_id@ && Some(o.event@) == created_event(args) && o.payload@
                == enc_envelope(o.event@) && consistent(o.event@),
    {
        if identity.is_none() {
            return Err(PublishError::Unauthorized(AuthError::Unauthenticated));
        }
        let operation = match args.object_type {
            ObjectType::File => {
                let ext = match args.extension {
                    None => return Err(PublishError::MissingExtension),
                    Some(e) => e,
                };
                let mut basename = args.name.clone();
                basename.append(".");
                basename.append(ext.as_str());
                Operation::File(FileOperation { basename, name: args.name, extension: ext, path: args.path, stat: args.stat })
            },
            ObjectType::Folder => {
                let basename = args.name.clone();
                Operation::Path(PathOperation { basename, name: args.name, path: args.path, stat: args.stat })
            },
        };
        let event = EventEnvelope::Sync(SyncEvent::Create(SyncMessage { operation_type: args.object_type, operation }));
        publish_event(identity, Predicate::Authenticated, vault_id, event)
    }
}

/// A link to share: its address and a label.
pub struct CreateLinkInput {
    pub url: String,
    pub label: String,
}

/// The link operations.
pub struct LinkMutations;

impl LinkMutations {
    /// Shares the link `args` under the id `id` on the well-known link channel.
    /// Any authenticated caller may share.
    pub fn insert_link(&self, identity: Option<&UserEntity>, id: String, args: CreateLinkInput) -> (r: Result<Outbound, PublishError>)
        ensures
            identity is None ==> r matches Err(PublishError::Unauthorized(AuthError::Unauthenticated)),
            identity is Some ==> r is Ok,
            r matches Ok(o) ==> o.key@ == "link_channel"@ && o.event@ == EventEnvelopeView::Link(
                LinkView { id: id@, url: args.url@, label: args.label@ },
            ) && o.payload@ == enc_envelope(o.event@),
    {
        let key = link_channel_key();
        proof {
            reveal_strlit("link_channel");
        }
        let event = EventEnvelope::Link(Link { id, url: args.url, label: args.label });
        publish_event(identity, Predicate::Authenticated, key, event)
    }
}

} // verus!
