//! Network topology and project lifecycle core of a collaborative,
//! block-based programming cloud.
//!
//! The library maintains a live routing topology that binds transport
//! connections to logical addresses (user/role/project/external-app),
//! resolves address strings to concrete recipients, and manages the
//! project/room lifecycle (create, rename, publish, collaborate) that the
//! topology depends on.  All state transitions are specified and verified;
//! transports and persistent stores are consumed through plain values.

pub mod address;
pub mod cache;
pub mod errors;
pub mod groups;
pub mod ids;
pub mod invites;
pub mod projects;
pub mod strmap;
pub mod strutil;
pub mod topology;
pub mod types;
