//! Core engine of a persistent, streaming chat application.
//!
//! The crate models the durable state (conversations, messages, known model
//! names) together with the operations the application performs on it:
//! sending a message, streaming an incrementally generated reply into a
//! placeholder row, forking a conversation at a chosen message, and deleting
//! a conversation with its messages. The incremental reply stream arrives as
//! newline-delimited records; decoding it into normalized events and fanning
//! those events out to live viewers is modeled here as well.

pub mod client;
pub mod hub;
pub mod orchestrate;
pub mod prompt;
pub mod speaker;
pub mod store;
