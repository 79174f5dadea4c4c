//! Dataplane of an L7 reverse proxy: routing table, load balancing,
//! request shaping, forward-auth decisions, SNI certificate lookup and the
//! reconciliation state machine that applies control-plane snapshots; and
//! the configuration format and messages of a small virtual-server front.
pub mod auth;
pub mod config;
pub mod control;
pub mod forward;
pub mod headers;
pub mod message;
pub mod model;
pub mod routing;
pub mod rules;
pub mod sni;
pub mod text;
