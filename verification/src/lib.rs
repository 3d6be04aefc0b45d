//! Tracked-environment payloads and session labels.
//!
//! `env` reads and renders the newline-separated environment payload that a
//! client hands to the daemon; `label` validates, encodes and decodes the
//! `key=value` labels attached to a session. `text` holds the character-level
//! helpers both of them share.
pub mod text;
pub mod env;
pub mod label;
