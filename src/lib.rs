//! Channel message store, identity allocation and message codecs for a
//! federated chat system.

pub mod clock;
pub mod channel;
pub mod codec;
pub mod ecs;
pub mod envelope;
pub mod ids;
pub mod keys;
pub mod model;
pub mod record;
pub mod snowflake;
pub mod user;
