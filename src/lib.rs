//! The core of a bridge between a gateway chat platform and a federated one.
//!
//! - `chat_service`: message identities and the correlation store that links
//!   each message to the relays made of it, with the invariant that a relay has
//!   at most one origin.
//! - `content`: the text transformations applied to relayed messages
//!   (mention escaping, quote stripping, reply headers).
//! - `relay`: what to send, edit or delete on the other platform when a
//!   message is created, edited or deleted on one of them.

pub mod chat_service;
pub mod content;
pub mod relay;
