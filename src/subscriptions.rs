//! Starting a listener on behalf of a caller: only an authenticated caller may
//! attach to a channel or a vault.
use vstd::prelude::*;
use vstd::string::StringExecFns;

use crate::bridge::{listen_post, BrokerCommand, SubscriptionBridge};
use crate::guards::{require, AuthError, Predicate};
use crate::models::UserEntity;

verus! {

/// Why no listener was started.
pub enum ListenError {
    Unauthorized(AuthError),
    /// Every listener id has been used.
    Exhausted,
    /// The broker could not take the subscription; the caller may retry.
    BrokerDisconnected,
}

/// What starting a listener on `key` for `identity` does to the bridge.
pub open spec fn attach_post(
    identity: Option<&UserEntity>,
    key: Seq<char>,
    before: SubscriptionBridge,
    after: SubscriptionBridge,
    r: Result<(u64, Option<BrokerCommand>), ListenError>,
) -> bool {
    &&& (identity is None ==> (r matches Err(ListenError::Unauthorized(AuthError::Unauthenticated))) && after == before)
    &&& (identity is Some ==> match r {
        Ok((id, cmd)) => listen_post(before, after, key, Some((id, cmd))),
        Err(ListenError::Exhausted) => before.next_id() == u64::MAX as nat && after == before,
        Err(ListenError::Unauthorized(_)) => false,
        Err(ListenError::BrokerDisconnected) => false,
    })
}

fn attach(bridge: &mut SubscriptionBridge, identity: Option<&UserEntity>, key: String) -> (r: Result<(u64, Option<BrokerCommand>), ListenError>)
    requires
        old(bridge).wf(),
    ensures
        final(bridge).wf(),
        attach_post(identity, key@, *old(bridge), *final(bridge), r),
{
    match require(identity, Predicate::Authenticated) {
        Err(e) => Err(ListenError::Unauthorized(e)),
        Ok(()) => match bridge.listen(key) {
            Some((id, cmd)) => Ok((id, cmd)),
            None => Err(ListenError::Exhausted),
        },
    }
}

/// The chat subscriptions.
pub struct ChannelSubscriptions;

impl ChannelSubscriptions {
    /// Starts a listener on the channel `channel` for `identity`.
    pub fn listen_channel(&self, bridge: &mut SubscriptionBridge, identity: Option<&UserEntity>, channel: String) -> (r: Result<(u64, Option<BrokerCommand>), ListenError>)
        requires
            old(bridge).wf(),
        ensures
            final(bridge).wf(),
            attach_post(identity, channel@, *old(bridge), *final(bridge), r),
    {
        attach(bridge, identity, channel)
    }
}

/// The file-system sync subscriptions.
pub struct SyncSubscriptions;

impl SyncSubscriptions {
    /// Starts a listener on the vault `vault_id` for `identity`.
    pub fn listen_sync_events(&self, bridge: &mut SubscriptionBridge, identity: Option<&UserEntity>, vault_id: String) -> (r: Result<(u64, Option<BrokerCommand>), ListenError>)
        requires
            old(bridge).wf(),
        ensures
            final(bridge).wf(),
            attach_post(identity, vault_id@, *old(bridge), *final(bridge), r),
    {
        attach(bridge, identity, vault_id)
    }
}

/// The key of the well-known channel on which links are shared.
pub fn link_channel_key() -> (r: String)
    ensures
        r@ == "link_channel"@,
{
    String::from_str("link_channel")
}

/// The link subscriptions.
pub struct LinkSubscriptions;

impl LinkSubscriptions {
    /// Starts a listener on the link channel for `identity`.
    pub fn link_stream(&self, bridge: &mut SubscriptionBridge, identity: Option<&UserEntity>) -> (r: Result<(u64, Option<BrokerCommand>), ListenError>)
        requires
            old(bridge).wf(),
        ensures
            final(bridge).wf(),
            attach_post(identity, "link_channel"@, *old(bridge), *final(bridge), r),
    {
        attach(bridge, identity, link_channel_key())
    }
}

} // verus!
