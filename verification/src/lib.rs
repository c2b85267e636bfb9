//! A minimal durable message broker core: append-only topic logs split into
//! segments, flat binary registries for producers, consumers and topics
//! addressed by byte offset, a token scheme binding an identity to its
//! registry offset, and a retention protocol that reclaims old segments.
//!
//! The storage state lives in memory as plain byte vectors; callers that
//! want durability load and store those bytes themselves.

pub mod be64;
pub mod broker;
pub mod consumer;
pub mod errors;
pub mod event;
pub mod keys;
pub mod names;
pub mod numstr;
pub mod producer;
pub mod props;
pub mod registry;
pub mod segment;
pub mod token;
pub mod topic;
