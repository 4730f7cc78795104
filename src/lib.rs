//! Authorization, sessions and typed publish/subscribe over a raw byte broker.
//!
//! - `roles`, `guards`: the role order and the checks that gate every operation.
//! - `models`, `session`, `password`: identities, bearer tokens and their expiry.
//! - `wire`, `envelope`: the events and their canonical wire form, decoded exactly.
//! - `publish`, `admin`: what an authorized caller may send or change.
//! - `bridge`, `subscriptions`: one inbound broker connection fanned out to many
//!   listeners, with the per-key subscription state machine.
//! - `external`: the remaining calls into outside crates.

pub mod admin;
pub mod bridge;
pub mod envelope;
pub mod external;
pub mod guards;
pub mod models;
pub mod password;
pub mod publish;
pub mod roles;
pub mod session;
pub mod subscriptions;
pub mod wire;
